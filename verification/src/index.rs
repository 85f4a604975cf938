//! The property index: a mapping from property names to compressed
//! identifier sets.
//!
//! The index is a very large bit-matrix: each row is a property, each column
//! an element identifier, and a set bit means the element has the property.
//! Entries are kept sorted by property name, ascending, with no duplicate
//! names; the mathematical model of an index is a finite map from the name's
//! characters to the set of identifiers.

use vstd::prelude::*;

use crate::cis::{
    cis_add_checked, cis_add_many, cis_and_cardinality, cis_and_inplace, cis_andnot_inplace,
    cis_cardinality, cis_clone, cis_contains, cis_eq, cis_fast_or, cis_fast_xor, cis_maximum,
    cis_minimum, cis_new, cis_optimize, cis_or_inplace, cis_remove_checked, cis_set,
    union_of_sets, xor_of_sets, sets_of, all_finite, lemma_union_of_sets_finite,
    lemma_union_of_sets_contains, lemma_xor_of_sets_finite,
};
use crate::expression::{
    Expression, SpecExpr, nonempty_nary, view_seq, lemma_view_seq,
};
use crate::text::{
    lex_lt, lemma_lex_asymm, lemma_lex_total, lemma_lex_trans, str_eq, str_lt, str_starts_with,
};

verus! {

/// A lookup failure: the expression named a property the index does not
/// hold.
#[derive(Debug, PartialEq, Eq, Clone)]
pub enum Error {
    PropertyDoesNotExist(String),
}

impl Error {
    /// A readable description of the failure.
    pub fn message(&self) -> String {
        match self {
            Error::PropertyDoesNotExist(name) => {
                let mut s = String::from_str("property does not exist: ");
                s.append(name.as_str());
                s
            },
        }
    }
}

/// The names of a sequence of entries are strictly ascending.
pub open spec fn entries_sorted(s: Seq<(String, croaring::Bitmap)>) -> bool {
    forall|i: int, j: int| 0 <= i < j < s.len() ==> lex_lt(#[trigger] s[i].0@, #[trigger] s[j].0@)
}

/// No two entries share a name.
pub open spec fn unique_names(s: Seq<(String, croaring::Bitmap)>) -> bool {
    forall|i: int, j: int| 0 <= i < j < s.len() ==> (#[trigger] s[i].0@) != (#[trigger] s[j].0@)
}

/// Every entry's set is finite.
pub open spec fn entries_finite(s: Seq<(String, croaring::Bitmap)>) -> bool {
    forall|i: int| 0 <= i < s.len() ==> cis_set(#[trigger] s[i].1).finite()
}

/// The map that a sequence of entries denotes; later entries override
/// earlier ones, though well-formed indexes never hold a name twice.
pub open spec fn entries_map(s: Seq<(String, croaring::Bitmap)>) -> Map<Seq<char>, Set<u32>>
    decreases s.len(),
{
    if s.len() == 0 {
        Map::<Seq<char>, Set<u32>>::empty()
    } else {
        entries_map(s.drop_last()).insert(s.last().0@, cis_set(s.last().1))
    }
}

/// The union of all property sets of an index model: the universe against
/// which negation is interpreted.
pub open spec fn root_set(m: Map<Seq<char>, Set<u32>>) -> Set<u32> {
    Set::new(|x: u32| exists|k: Seq<char>| #[trigger] m.dom().contains(k) && m[k].contains(x))
}

/// Every set of an index model is finite.
pub open spec fn map_finite(m: Map<Seq<char>, Set<u32>>) -> bool {
    forall|k: Seq<char>| #[trigger] m.dom().contains(k) ==> m[k].finite()
}

/// Strictly ascending names imply distinct names.
pub proof fn lemma_sorted_unique(s: Seq<(String, croaring::Bitmap)>)
    requires
        entries_sorted(s),
    ensures
        unique_names(s),
{
    assert forall|i: int, j: int| 0 <= i < j < s.len() implies (#[trigger] s[i].0@)
        != (#[trigger] s[j].0@) by {
        lemma_lex_asymm(s[i].0@, s[j].0@);
    }
}

/// A name is in the denoted map exactly when some entry bears it.
pub proof fn lemma_map_dom(s: Seq<(String, croaring::Bitmap)>)
    ensures
        forall|k: Seq<char>|
            entries_map(s).dom().contains(k) <==> exists|i: int|
                0 <= i < s.len() && (#[trigger] s[i].0@) == k,
    decreases s.len(),
{
    if s.len() > 0 {
        lemma_map_dom(s.drop_last());
        assert(entries_map(s) == entries_map(s.drop_last()).insert(s.last().0@, cis_set(s.last().1)));
        assert forall|k: Seq<char>| entries_map(s).dom().contains(k) implies exists|i: int|
            0 <= i < s.len() && (#[trigger] s[i].0@) == k by {
            if k == s.last().0@ {
                assert(s[s.len() - 1].0@ == k);
            } else {
                assert(entries_map(s.drop_last()).dom().contains(k));
                let i = choose|i: int|
                    0 <= i < s.drop_last().len() && (#[trigger] s.drop_last()[i].0@) == k;
                assert(s.drop_last()[i] == s[i]);
                assert(s[i].0@ == k);
            }
        }
        assert forall|k: Seq<char>|
            (exists|i: int| 0 <= i < s.len() && (#[trigger] s[i].0@) == k) implies entries_map(
            s,
        ).dom().contains(k) by {
            let i = choose|i: int| 0 <= i < s.len() && (#[trigger] s[i].0@) == k;
            if i < s.len() - 1 {
                assert(s.drop_last()[i] == s[i]);
                assert(s.drop_last()[i].0@ == k);
                assert(entries_map(s.drop_last()).dom().contains(k));
            }
        }
    }
}

/// With distinct names, each entry's set is what the denoted map assigns to
/// its name.
pub proof fn lemma_map_at(s: Seq<(String, croaring::Bitmap)>, i: int)
    requires
        unique_names(s),
        0 <= i < s.len(),
    ensures
        entries_map(s).dom().contains(s[i].0@),
        entries_map(s)[s[i].0@] == cis_set(s[i].1),
    decreases s.len(),
{
    if i == s.len() - 1 {
    } else {
        assert(forall|a: int, b: int|
            0 <= a < b < s.drop_last().len() ==> (#[trigger] s.drop_last()[a].0@)
                != (#[trigger] s.drop_last()[b].0@));
        lemma_map_at(s.drop_last(), i);
        assert(s[i].0@ != s.last().0@);
    }
}

/// With distinct names, the denoted map has exactly one key per entry.
pub proof fn lemma_map_len(s: Seq<(String, croaring::Bitmap)>)
    requires
        unique_names(s),
    ensures
        entries_map(s).dom().finite(),
        entries_map(s).dom().len() == s.len(),
    decreases s.len(),
{
    if s.len() > 0 {
        assert(forall|a: int, b: int|
            0 <= a < b < s.drop_last().len() ==> (#[trigger] s.drop_last()[a].0@)
                != (#[trigger] s.drop_last()[b].0@));
        lemma_map_len(s.drop_last());
        lemma_map_dom(s.drop_last());
        assert(!entries_map(s.drop_last()).dom().contains(s.last().0@)) by {
            if entries_map(s.drop_last()).dom().contains(s.last().0@) {
                let i = choose|i: int|
                    0 <= i < s.drop_last().len() && (#[trigger] s.drop_last()[i].0@)
                        == s.last().0@;
                assert(s[i].0@ == s[s.len() - 1].0@);
            }
        }
        assert(entries_map(s).dom() =~= entries_map(s.drop_last()).dom().insert(s.last().0@));
    }
}

/// With distinct names, every set of the denoted map is finite when every
/// entry's set is.
pub proof fn lemma_map_finite_values(s: Seq<(String, croaring::Bitmap)>)
    requires
        unique_names(s),
        entries_finite(s),
    ensures
        map_finite(entries_map(s)),
{
    lemma_map_dom(s);
    assert forall|k: Seq<char>| #[trigger]
        entries_map(s).dom().contains(k) implies entries_map(s)[k].finite() by {
        let i = choose|i: int| 0 <= i < s.len() && (#[trigger] s[i].0@) == k;
        lemma_map_at(s, i);
    }
}

/// Inserting an entry with a fresh name at any position inserts its pair
/// into the denoted map.
pub proof fn lemma_map_insert_at(s: Seq<(String, croaring::Bitmap)>, j: int, p: (String, croaring::Bitmap))
    requires
        0 <= j <= s.len(),
        forall|i: int| 0 <= i < s.len() ==> (#[trigger] s[i].0@) != p.0@,
    ensures
        entries_map(s.insert(j, p)) =~= entries_map(s).insert(p.0@, cis_set(p.1)),
    decreases s.len(),
{
    if j == s.len() {
        assert(s.insert(j, p).drop_last() =~= s);
        assert(s.insert(j, p).last() == p);
    } else {
        let t = s.insert(j, p);
        assert(t.drop_last() =~= s.drop_last().insert(j, p));
        assert(t.last() == s.last());
        assert(forall|i: int|
            0 <= i < s.drop_last().len() ==> (#[trigger] s.drop_last()[i].0@) != p.0@);
        lemma_map_insert_at(s.drop_last(), j, p);
        assert(s[s.len() - 1].0@ != p.0@);
        assert(entries_map(t) =~= entries_map(s).insert(p.0@, cis_set(p.1)));
    }
}

/// Replacing the entry at `j` by one with the same name overrides that name
/// in the denoted map.
pub proof fn lemma_map_update_at(s: Seq<(String, croaring::Bitmap)>, j: int, p: (String, croaring::Bitmap))
    requires
        unique_names(s),
        0 <= j < s.len(),
        p.0@ == s[j].0@,
    ensures
        entries_map(s.update(j, p)) =~= entries_map(s).insert(p.0@, cis_set(p.1)),
    decreases s.len(),
{
    let t = s.update(j, p);
    if j == s.len() - 1 {
        assert(t.drop_last() =~= s.drop_last());
        assert(t.last() == p);
    } else {
        assert(t.drop_last() =~= s.drop_last().update(j, p));
        assert(t.last() == s.last());
        assert(forall|a: int, b: int|
            0 <= a < b < s.drop_last().len() ==> (#[trigger] s.drop_last()[a].0@)
                != (#[trigger] s.drop_last()[b].0@));
        assert(s.drop_last()[j] == s[j]);
        lemma_map_update_at(s.drop_last(), j, p);
        assert(s[j].0@ != s[s.len() - 1].0@);
        assert(entries_map(t) =~= entries_map(s).insert(p.0@, cis_set(p.1)));
    }
}

/// Removing the entry at `j` removes its name from the denoted map.
pub proof fn lemma_map_remove_at(s: Seq<(String, croaring::Bitmap)>, j: int)
    requires
        unique_names(s),
        0 <= j < s.len(),
    ensures
        entries_map(s.remove(j)) =~= entries_map(s).remove(s[j].0@),
    decreases s.len(),
{
    let t = s.remove(j);
    if j == s.len() - 1 {
        assert(t =~= s.drop_last());
        lemma_map_dom(s.drop_last());
        assert(!entries_map(s.drop_last()).dom().contains(s[j].0@)) by {
            if entries_map(s.drop_last()).dom().contains(s[j].0@) {
                let i = choose|i: int|
                    0 <= i < s.drop_last().len() && (#[trigger] s.drop_last()[i].0@) == s[j].0@;
                assert(s[i].0@ == s[j].0@);
            }
        }
        assert(entries_map(t) =~= entries_map(s).remove(s[j].0@));
    } else {
        assert(t.drop_last() =~= s.drop_last().remove(j));
        assert(t.last() == s.last());
        assert(forall|a: int, b: int|
            0 <= a < b < s.drop_last().len() ==> (#[trigger] s.drop_last()[a].0@)
                != (#[trigger] s.drop_last()[b].0@));
        assert(s.drop_last()[j] == s[j]);
        lemma_map_remove_at(s.drop_last(), j);
        assert(s[j].0@ != s[s.len() - 1].0@);
        assert(entries_map(t) =~= entries_map(s).remove(s[j].0@));
    }
}

/// Inserting an entry between its neighbours keeps the names ascending.
pub proof fn lemma_sorted_insert(s: Seq<(String, croaring::Bitmap)>, j: int, p: (String, croaring::Bitmap))
    requires
        entries_sorted(s),
        0 <= j <= s.len(),
        forall|i: int| 0 <= i < j ==> lex_lt(#[trigger] s[i].0@, p.0@),
        forall|i: int| j <= i < s.len() ==> lex_lt(p.0@, #[trigger] s[i].0@),
    ensures
        entries_sorted(s.insert(j, p)),
{
    let t = s.insert(j, p);
    assert forall|a: int, b: int| 0 <= a < b < t.len() implies lex_lt(
        #[trigger] t[a].0@,
        #[trigger] t[b].0@,
    ) by {
        if a < j && b < j {
            assert(t[a] == s[a] && t[b] == s[b]);
        } else if a < j && b == j {
            assert(t[a] == s[a]);
        } else if a < j && b > j {
            assert(t[a] == s[a] && t[b] == s[b - 1]);
        } else if a == j {
            assert(t[b] == s[b - 1]);
        } else {
            assert(t[a] == s[a - 1] && t[b] == s[b - 1]);
        }
    }
}

/// Replacing an entry by one with the same name keeps the names ascending.
pub proof fn lemma_sorted_update(s: Seq<(String, croaring::Bitmap)>, j: int, p: (String, croaring::Bitmap))
    requires
        entries_sorted(s),
        0 <= j < s.len(),
        p.0@ == s[j].0@,
    ensures
        entries_sorted(s.update(j, p)),
{
    let t = s.update(j, p);
    assert forall|a: int, b: int| 0 <= a < b < t.len() implies lex_lt(
        #[trigger] t[a].0@,
        #[trigger] t[b].0@,
    ) by {
        assert(t[a].0@ == s[a].0@ && t[b].0@ == s[b].0@);
    }
}

/// Removing an entry keeps the names ascending.
pub proof fn lemma_sorted_remove(s: Seq<(String, croaring::Bitmap)>, j: int)
    requires
        entries_sorted(s),
        0 <= j < s.len(),
    ensures
        entries_sorted(s.remove(j)),
{
    let t = s.remove(j);
    assert forall|a: int, b: int| 0 <= a < b < t.len() implies lex_lt(
        #[trigger] t[a].0@,
        #[trigger] t[b].0@,
    ) by {
        if a < j && b < j {
            assert(t[a] == s[a] && t[b] == s[b]);
        } else if a < j {
            assert(t[a] == s[a] && t[b] == s[b + 1]);
        } else {
            assert(t[a] == s[a + 1] && t[b] == s[b + 1]);
        }
    }
}

/// The set a model stores for a name, or the empty set when the name is
/// absent.
pub open spec fn stored_or_empty(m: Map<Seq<char>, Set<u32>>, k: Seq<char>) -> Set<u32> {
    if m.dom().contains(k) {
        m[k]
    } else {
        Set::<u32>::empty()
    }
}

/// An index: properties, each with its compressed identifier set, kept in
/// ascending name order.
pub struct Index {
    entries: Vec<(String, croaring::Bitmap)>,
}

impl View for Index {
    type V = Map<Seq<char>, Set<u32>>;

    closed spec fn view(&self) -> Map<Seq<char>, Set<u32>> {
        entries_map(self.entries@)
    }
}

impl Index {
    /// The internal ordering and finiteness invariant.
    pub closed spec fn wf(&self) -> bool {
        entries_sorted(self.entries@) && entries_finite(self.entries@)
    }

    /// The entry sequence, for specifications that speak of encoding order.
    pub closed spec fn entry_seq(&self) -> Seq<(String, croaring::Bitmap)> {
        self.entries@
    }

    /// What well-formedness gives of the entry sequence and the denoted map.
    pub proof fn lemma_wf_entries(&self)
        requires
            self.wf(),
        ensures
            entries_sorted(self.entry_seq()),
            unique_names(self.entry_seq()),
            entries_finite(self.entry_seq()),
            self@.dom().finite(),
            self@.dom().len() == self.entry_seq().len(),
            map_finite(self@),
            forall|i: int|
                0 <= i < self.entry_seq().len() ==> self@.dom().contains(
                    #[trigger] self.entry_seq()[i].0@,
                ) && self@[self.entry_seq()[i].0@] == cis_set(self.entry_seq()[i].1),
            forall|k: Seq<char>|
                self@.dom().contains(k) <==> exists|i: int|
                    0 <= i < self.entry_seq().len() && (#[trigger] self.entry_seq()[i].0@) == k,
    {
        lemma_sorted_unique(self.entries@);
        lemma_map_dom(self.entries@);
        lemma_map_len(self.entries@);
        lemma_map_finite_values(self.entries@);
        assert forall|i: int| 0 <= i < self.entry_seq().len() implies self@.dom().contains(
            #[trigger] self.entry_seq()[i].0@,
        ) && self@[self.entry_seq()[i].0@] == cis_set(self.entry_seq()[i].1) by {
            lemma_map_at(self.entries@, i);
        }
    }

    /// A new, empty index.
    pub fn new() -> (r: Index)
        ensures
            r.wf(),
            r@ == Map::<Seq<char>, Set<u32>>::empty(),
            r.entry_seq().len() == 0,
    {
        Index { entries: Vec::new() }
    }

    /// The number of properties the index covers.
    pub fn len(&self) -> (r: usize)
        requires
            self.wf(),
        ensures
            r == self@.dom().len(),
            r == self.entry_seq().len(),
    {
        proof {
            self.lemma_wf_entries();
        }
        self.entries.len()
    }

    /// Whether the index covers no property at all.
    pub fn is_empty(&self) -> (r: bool)
        requires
            self.wf(),
        ensures
            r == (self@.dom() == Set::<Seq<char>>::empty()),
    {
        proof {
            self.lemma_wf_entries();
            if self.entries@.len() == 0 {
                assert(self@.dom() =~= Set::<Seq<char>>::empty());
            } else {
                assert(self@.dom().contains(self.entries@[0].0@));
            }
        }
        self.entries.is_empty()
    }

    /// Access the entries, in ascending name order.
    pub fn inner(&self) -> (r: &Vec<(String, croaring::Bitmap)>)
        ensures
            r@ == self.entry_seq(),
    {
        &self.entries
    }

    /// The position `property` has, or would have, in the entry order: the
    /// first index whose name is not smaller than `property`.
    fn position_for(&self, property: &str) -> (r: usize)
        requires
            self.wf(),
        ensures
            r <= self.entry_seq().len(),
            forall|i: int| 0 <= i < r ==> lex_lt(#[trigger] self.entry_seq()[i].0@, property@),
            r < self.entry_seq().len() ==> !lex_lt(self.entry_seq()[r as int].0@, property@),
    {
        let n = self.entries.len();
        let mut i: usize = 0;
        while i < n
            invariant
                0 <= i <= n,
                n == self.entries@.len(),
                self.wf(),
                forall|j: int| 0 <= j < i ==> lex_lt(#[trigger] self.entries@[j].0@, property@),
            decreases n - i,
        {
            if !str_lt(self.entries[i].0.as_str(), property) {
                return i;
            }
            i = i + 1;
        }
        i
    }

    /// Find where `property` stands, or would stand, in the entry order.
    /// The flag says whether the entry at that position already bears the
    /// name.
    fn locate(&self, property: &str) -> (r: (usize, bool))
        requires
            self.wf(),
        ensures
            r.0 <= self.entry_seq().len(),
            forall|i: int| 0 <= i < r.0 ==> lex_lt(#[trigger] self.entry_seq()[i].0@, property@),
            r.1 ==> r.0 < self.entry_seq().len() && self.entry_seq()[r.0 as int].0@ == property@,
            !r.1 ==> !self@.dom().contains(property@) && (forall|i: int|
                r.0 <= i < self.entry_seq().len() ==> lex_lt(
                    property@,
                    #[trigger] self.entry_seq()[i].0@,
                )),
    {
        proof {
            self.lemma_wf_entries();
        }
        let pos = self.position_for(property);
        if pos < self.entries.len() && str_eq(self.entries[pos].0.as_str(), property) {
            (pos, true)
        } else {
            proof {
                assert forall|i: int|
                    pos <= i < self.entry_seq().len() implies lex_lt(
                    property@,
                    #[trigger] self.entry_seq()[i].0@,
                ) by {
                    lemma_lex_total(self.entry_seq()[pos as int].0@, property@);
                    if i > pos {
                        lemma_lex_trans(
                            property@,
                            self.entry_seq()[pos as int].0@,
                            self.entry_seq()[i].0@,
                        );
                    }
                }
                assert forall|i: int|
                    0 <= i < self.entry_seq().len() implies (#[trigger] self.entry_seq()[i].0@)
                    != property@ by {
                    if i < pos {
                        lemma_lex_asymm(self.entry_seq()[i].0@, property@);
                    } else {
                        lemma_lex_asymm(property@, self.entry_seq()[i].0@);
                    }
                }
            }
            (pos, false)
        }
    }

    /// Find the entry holding `property`, if any.
    fn find(&self, property: &str) -> (r: Option<usize>)
        requires
            self.wf(),
        ensures
            match r {
                Some(i) => i < self.entry_seq().len() && self.entry_seq()[i as int].0@
                    == property@,
                None => !self@.dom().contains(property@),
            },
    {
        let (pos, found) = self.locate(property);
        if found {
            Some(pos)
        } else {
            None
        }
    }

    /// The set stored for `property`, if the index covers it.
    pub fn get_property(&self, property: &str) -> (r: Option<&croaring::Bitmap>)
        requires
            self.wf(),
        ensures
            match r {
                Some(b) => self@.dom().contains(property@) && cis_set(*b) == self@[property@],
                None => !self@.dom().contains(property@),
            },
    {
        proof {
            self.lemma_wf_entries();
        }
        match self.find(property) {
            Some(i) => Some(&self.entries[i].1),
            None => None,
        }
    }

    /// Store `bm` as the whole set of `property`, replacing any prior set.
    pub fn set_property(&mut self, property: &str, bm: croaring::Bitmap)
        requires
            old(self).wf(),
            cis_set(bm).finite(),
        ensures
            final(self).wf(),
            final(self)@ == old(self)@.insert(property@, cis_set(bm)),
    {
        proof {
            self.lemma_wf_entries();
        }
        let (pos, found) = self.locate(property);
        let ghost s = self.entries@;
        let pair = (property.to_owned(), bm);
        if found {
            proof {
                lemma_sorted_update(s, pos as int, pair);
                lemma_map_update_at(s, pos as int, pair);
            }
            self.entries[pos] = pair;
            proof {
                assert(entries_finite(self.entries@));
                assert(final(self)@ =~= old(self)@.insert(property@, cis_set(bm)));
            }
        } else {
            proof {
                lemma_sorted_insert(s, pos as int, pair);
                lemma_map_insert_at(s, pos as int, pair);
                lemma_map_dom(s);
            }
            self.entries.insert(pos, pair);
            proof {
                assert(entries_finite(self.entries@)) by {
                    assert(forall|i: int|
                        0 <= i < self.entries@.len() && i != pos ==> cis_set(
                            #[trigger] self.entries@[i].1,
                        ).finite());
                }
                assert(final(self)@ =~= old(self)@.insert(property@, cis_set(bm)));
            }
        }
    }

    /// Forget `property` altogether; reports whether it was covered.
    pub fn delete_property(&mut self, property: &str) -> (r: bool)
        requires
            old(self).wf(),
        ensures
            final(self).wf(),
            final(self)@ == old(self)@.remove(property@),
            r == old(self)@.dom().contains(property@),
    {
        proof {
            self.lemma_wf_entries();
        }
        let (pos, found) = self.locate(property);
        let ghost s = self.entries@;
        if found {
            proof {
                lemma_sorted_remove(s, pos as int);
                lemma_map_remove_at(s, pos as int);
            }
            let _ = self.entries.remove(pos);
            proof {
                assert(entries_finite(self.entries@)) by {
                    assert(forall|i: int|
                        0 <= i < self.entries@.len() ==> cis_set(
                            #[trigger] self.entries@[i].1,
                        ).finite());
                }
                assert(final(self)@ =~= old(self)@.remove(property@));
            }
            true
        } else {
            proof {
                assert(final(self)@ =~= old(self)@.remove(property@));
            }
            false
        }
    }

    /// Drop every property.
    pub fn clear(&mut self)
        ensures
            final(self).wf(),
            final(self)@ == Map::<Seq<char>, Set<u32>>::empty(),
    {
        self.entries.clear();
    }

    /// Set one bit for one property, creating the property when absent.
    /// Reports whether the bit was not already set.
    pub fn set(&mut self, property: &str, bit: u32) -> (r: bool)
        requires
            old(self).wf(),
        ensures
            final(self).wf(),
            final(self)@ == old(self)@.insert(
                property@,
                stored_or_empty(old(self)@, property@).insert(bit),
            ),
            r == !stored_or_empty(old(self)@, property@).contains(bit),
    {
        proof {
            self.lemma_wf_entries();
        }
        let (pos, found) = self.locate(property);
        let ghost s = self.entries@;
        if found {
            proof {
                lemma_map_at(s, pos as int);
            }
            let r = cis_add_checked(&mut self.entries[pos].1, bit);
            proof {
                let pair = self.entries@[pos as int];
                assert(self.entries@ =~= s.update(pos as int, pair));
                lemma_sorted_update(s, pos as int, pair);
                lemma_map_update_at(s, pos as int, pair);
                assert(entries_finite(self.entries@)) by {
                    assert(forall|i: int|
                        0 <= i < self.entries@.len() && i != pos ==> cis_set(
                            #[trigger] self.entries@[i].1,
                        ).finite());
                }
                assert(final(self)@ =~= old(self)@.insert(
                    property@,
                    stored_or_empty(old(self)@, property@).insert(bit),
                ));
            }
            r
        } else {
            let mut bm = cis_new();
            let r = cis_add_checked(&mut bm, bit);
            let pair = (property.to_owned(), bm);
            proof {
                lemma_sorted_insert(s, pos as int, pair);
                lemma_map_insert_at(s, pos as int, pair);
            }
            self.entries.insert(pos, pair);
            proof {
                assert(entries_finite(self.entries@)) by {
                    assert(forall|i: int|
                        0 <= i < self.entries@.len() && i != pos ==> cis_set(
                            #[trigger] self.entries@[i].1,
                        ).finite());
                }
                assert(stored_or_empty(old(self)@, property@) =~= Set::<u32>::empty());
                assert(final(self)@ =~= old(self)@.insert(
                    property@,
                    stored_or_empty(old(self)@, property@).insert(bit),
                ));
            }
            r
        }
    }

    /// Unset one bit of one property; a no-op when the property is absent.
    /// Reports whether the bit was present.
    pub fn unset(&mut self, property: &str, bit: u32) -> (r: bool)
        requires
            old(self).wf(),
        ensures
            final(self).wf(),
            final(self)@ == if old(self)@.dom().contains(property@) {
                old(self)@.insert(property@, old(self)@[property@].remove(bit))
            } else {
                old(self)@
            },
            r == stored_or_empty(old(self)@, property@).contains(bit),
    {
        proof {
            self.lemma_wf_entries();
        }
        let (pos, found) = self.locate(property);
        let ghost s = self.entries@;
        if found {
            proof {
                lemma_map_at(s, pos as int);
            }
            let r = cis_remove_checked(&mut self.entries[pos].1, bit);
            proof {
                let pair = self.entries@[pos as int];
                assert(self.entries@ =~= s.update(pos as int, pair));
                lemma_sorted_update(s, pos as int, pair);
                lemma_map_update_at(s, pos as int, pair);
                assert(entries_finite(self.entries@)) by {
                    assert(forall|i: int|
                        0 <= i < self.entries@.len() && i != pos ==> cis_set(
                            #[trigger] self.entries@[i].1,
                        ).finite());
                }
                assert(final(self)@ =~= old(self)@.insert(
                    property@,
                    old(self)@[property@].remove(bit),
                ));
            }
            r
        } else {
            false
        }
    }

    /// Set many bits for one property, creating the property when absent.
    pub fn set_many(&mut self, property: &str, bits: &[u32])
        requires
            old(self).wf(),
        ensures
            final(self).wf(),
            final(self)@ == old(self)@.insert(
                property@,
                stored_or_empty(old(self)@, property@).union(bits@.to_set()),
            ),
    {
        proof {
            self.lemma_wf_entries();
        }
        let (pos, found) = self.locate(property);
        let ghost s = self.entries@;
        if found {
            proof {
                lemma_map_at(s, pos as int);
            }
            cis_add_many(&mut self.entries[pos].1, bits);
            proof {
                let pair = self.entries@[pos as int];
                assert(self.entries@ =~= s.update(pos as int, pair));
                lemma_sorted_update(s, pos as int, pair);
                lemma_map_update_at(s, pos as int, pair);
                assert(entries_finite(self.entries@)) by {
                    assert(forall|i: int|
                        0 <= i < self.entries@.len() && i != pos ==> cis_set(
                            #[trigger] self.entries@[i].1,
                        ).finite());
                }
                assert(final(self)@ =~= old(self)@.insert(
                    property@,
                    stored_or_empty(old(self)@, property@).union(bits@.to_set()),
                ));
            }
        } else {
            let mut bm = cis_new();
            cis_add_many(&mut bm, bits);
            let pair = (property.to_owned(), bm);
            proof {
                lemma_sorted_insert(s, pos as int, pair);
                lemma_map_insert_at(s, pos as int, pair);
            }
            self.entries.insert(pos, pair);
            proof {
                assert(entries_finite(self.entries@)) by {
                    assert(forall|i: int|
                        0 <= i < self.entries@.len() && i != pos ==> cis_set(
                            #[trigger] self.entries@[i].1,
                        ).finite());
                }
                assert(stored_or_empty(old(self)@, property@).union(bits@.to_set())
                    =~= Set::<u32>::empty().union(bits@.to_set()));
                assert(final(self)@ =~= old(self)@.insert(
                    property@,
                    stored_or_empty(old(self)@, property@).union(bits@.to_set()),
                ));
            }
        }
    }

    /// Unset many bits of one property; a no-op when the property is absent.
    pub fn unset_many(&mut self, property: &str, bits: &[u32])
        requires
            old(self).wf(),
        ensures
            final(self).wf(),
            final(self)@ == if old(self)@.dom().contains(property@) {
                old(self)@.insert(property@, old(self)@[property@].difference(bits@.to_set()))
            } else {
                old(self)@
            },
    {
        proof {
            self.lemma_wf_entries();
        }
        let (pos, found) = self.locate(property);
        let ghost s = self.entries@;
        if found {
            proof {
                lemma_map_at(s, pos as int);
            }
            let mut mask = cis_new();
            cis_add_many(&mut mask, bits);
            cis_andnot_inplace(&mut self.entries[pos].1, &mask);
            proof {
                let pair = self.entries@[pos as int];
                assert(self.entries@ =~= s.update(pos as int, pair));
                lemma_sorted_update(s, pos as int, pair);
                lemma_map_update_at(s, pos as int, pair);
                assert(entries_finite(self.entries@)) by {
                    assert(forall|i: int|
                        0 <= i < self.entries@.len() && i != pos ==> cis_set(
                            #[trigger] self.entries@[i].1,
                        ).finite());
                }
                assert(cis_set(pair.1) =~= old(self)@[property@].difference(bits@.to_set()));
                assert(final(self)@ =~= old(self)@.insert(
                    property@,
                    old(self)@[property@].difference(bits@.to_set()),
                ));
            }
        }
    }

    /// Union the given bits into every property the index already covers.
    pub fn set_all(&mut self, bits: &[u32])
        requires
            old(self).wf(),
        ensures
            final(self).wf(),
            final(self)@.dom() == old(self)@.dom(),
            forall|k: Seq<char>|
                old(self)@.dom().contains(k) ==> final(self)@[k] == old(self)@[k].union(
                    #[trigger] bits@.to_set(),
                ),
    {
        proof {
            self.lemma_wf_entries();
        }
        let ghost s = self.entries@;
        let mut mask = cis_new();
        cis_add_many(&mut mask, bits);
        let n = self.entries.len();
        let mut i: usize = 0;
        while i < n
            invariant
                0 <= i <= n,
                n == self.entries@.len(),
                s.len() == n,
                cis_set(mask) == Set::<u32>::empty().union(bits@.to_set()),
                cis_set(mask).finite(),
                forall|j: int| 0 <= j < n ==> (#[trigger] self.entries@[j].0) == s[j].0,
                forall|j: int|
                    0 <= j < i ==> cis_set(#[trigger] self.entries@[j].1) == cis_set(
                        s[j].1,
                    ).union(bits@.to_set()),
                forall|j: int| i <= j < n ==> (#[trigger] self.entries@[j].1) == s[j].1,
                entries_finite(self.entries@),
                entries_sorted(s),
                entries_finite(s),
            decreases n - i,
        {
            cis_or_inplace(&mut self.entries[i].1, &mask);
            proof {
                assert(cis_set(self.entries@[i as int].1) =~= cis_set(s[i as int].1).union(
                    bits@.to_set(),
                ));
            }
            i = i + 1;
        }
        proof {
            self.finish_bulk_update(s, bits@.to_set(), true);
        }
    }

    /// Remove the given bits from every property the index covers.
    pub fn unset_all(&mut self, bits: &[u32])
        requires
            old(self).wf(),
        ensures
            final(self).wf(),
            final(self)@.dom() == old(self)@.dom(),
            forall|k: Seq<char>|
                old(self)@.dom().contains(k) ==> final(self)@[k] == old(self)@[k].difference(
                    #[trigger] bits@.to_set(),
                ),
    {
        proof {
            self.lemma_wf_entries();
        }
        let ghost s = self.entries@;
        let mut mask = cis_new();
        cis_add_many(&mut mask, bits);
        let n = self.entries.len();
        let mut i: usize = 0;
        while i < n
            invariant
                0 <= i <= n,
                n == self.entries@.len(),
                s.len() == n,
                cis_set(mask) == Set::<u32>::empty().union(bits@.to_set()),
                cis_set(mask).finite(),
                forall|j: int| 0 <= j < n ==> (#[trigger] self.entries@[j].0) == s[j].0,
                forall|j: int|
                    0 <= j < i ==> cis_set(#[trigger] self.entries@[j].1) == cis_set(
                        s[j].1,
                    ).difference(bits@.to_set()),
                forall|j: int| i <= j < n ==> (#[trigger] self.entries@[j].1) == s[j].1,
                entries_finite(self.entries@),
                entries_sorted(s),
                entries_finite(s),
            decreases n - i,
        {
            cis_andnot_inplace(&mut self.entries[i].1, &mask);
            proof {
                assert(cis_set(self.entries@[i as int].1) =~= cis_set(s[i as int].1).difference(
                    bits@.to_set(),
                ));
            }
            i = i + 1;
        }
        proof {
            self.finish_bulk_update(s, bits@.to_set(), false);
        }
    }

    /// After a loop that rewrote every entry's set from `s` by a union or
    /// difference with `delta`, the denoted map changed pointwise and the
    /// index is still well formed.
    proof fn finish_bulk_update(&self, s: Seq<(String, croaring::Bitmap)>, delta: Set<u32>, adding: bool)
        requires
            s.len() == self.entries@.len(),
            forall|j: int| 0 <= j < s.len() ==> (#[trigger] self.entries@[j].0) == s[j].0,
            forall|j: int|
                0 <= j < s.len() ==> cis_set(#[trigger] self.entries@[j].1) == if adding {
                    cis_set(s[j].1).union(delta)
                } else {
                    cis_set(s[j].1).difference(delta)
                },
            entries_finite(self.entries@),
            entries_sorted(s),
            entries_finite(s),
        ensures
            self.wf(),
            self@.dom() == entries_map(s).dom(),
            forall|k: Seq<char>|
                entries_map(s).dom().contains(k) ==> self@[k] == if adding {
                    entries_map(s)[k].union(delta)
                } else {
                    entries_map(s)[k].difference(delta)
                },
    {
        assert(entries_sorted(self.entries@)) by {
            assert forall|a: int, b: int| 0 <= a < b < self.entries@.len() implies lex_lt(
                #[trigger] self.entries@[a].0@,
                #[trigger] self.entries@[b].0@,
            ) by {
                assert(self.entries@[a].0 == s[a].0 && self.entries@[b].0 == s[b].0);
            }
        }
        lemma_sorted_unique(s);
        lemma_sorted_unique(self.entries@);
        lemma_map_dom(s);
        lemma_map_dom(self.entries@);
        assert forall|k: Seq<char>|
            entries_map(self.entries@).dom().contains(k) implies entries_map(
            s,
        ).dom().contains(k) by {
            let i = choose|i: int|
                0 <= i < self.entries@.len() && (#[trigger] self.entries@[i].0@) == k;
            assert(s[i].0@ == k);
        }
        assert forall|k: Seq<char>| entries_map(s).dom().contains(k) implies entries_map(
            self.entries@,
        ).dom().contains(k) by {
            let i = choose|i: int| 0 <= i < s.len() && (#[trigger] s[i].0@) == k;
            assert(self.entries@[i].0@ == k);
        }
        assert(self@.dom() =~= entries_map(s).dom());
        assert forall|k: Seq<char>| entries_map(s).dom().contains(k) implies self@[k]
            == if adding {
            entries_map(s)[k].union(delta)
        } else {
            entries_map(s)[k].difference(delta)
        } by {
            let i = choose|i: int| 0 <= i < s.len() && (#[trigger] s[i].0@) == k;
            lemma_map_at(s, i);
            assert(self.entries@[i].0@ == k);
            lemma_map_at(self.entries@, i);
        }
    }

    /// The union of every stored set: the identifiers the index knows at
    /// all, and the universe against which `not` is interpreted.
    pub fn root(&self) -> (r: croaring::Bitmap)
        requires
            self.wf(),
        ensures
            cis_set(r) == root_set(self@),
            cis_set(r).finite(),
    {
        proof {
            self.lemma_wf_entries();
        }
        let mut refs: Vec<&croaring::Bitmap> = Vec::new();
        let n = self.entries.len();
        let mut i: usize = 0;
        while i < n
            invariant
                0 <= i <= n,
                n == self.entries@.len(),
                refs@.len() == i,
                forall|j: int|
                    0 <= j < i ==> cis_set(*(#[trigger] refs@[j])) == cis_set(
                        self.entries@[j].1,
                    ),
            decreases n - i,
        {
            refs.push(&self.entries[i].1);
            i = i + 1;
        }
        let r = cis_fast_or(&refs);
        proof {
            self.lemma_wf_entries();
            assert(all_finite(refs@));
            lemma_union_of_sets_finite(sets_of(refs@));
            lemma_union_of_sets_contains(sets_of(refs@));
            assert forall|x: u32| union_of_sets(sets_of(refs@)).contains(x) implies root_set(
                self@,
            ).contains(x) by {
                let j = choose|j: int|
                    0 <= j < sets_of(refs@).len() && (#[trigger] sets_of(refs@)[j]).contains(x);
                assert(self@.dom().contains(self.entries@[j].0@));
                assert(self@[self.entries@[j].0@].contains(x));
            }
            assert forall|x: u32| root_set(self@).contains(x) implies union_of_sets(
                sets_of(refs@),
            ).contains(x) by {
                let k = choose|k: Seq<char>|
                    #[trigger] self@.dom().contains(k) && self@[k].contains(x);
                let j = choose|j: int|
                    0 <= j < self.entries@.len() && (#[trigger] self.entries@[j].0@) == k;
                lemma_map_at(self.entries@, j);
                assert(sets_of(refs@)[j].contains(x));
            }
            assert(cis_set(r) =~= root_set(self@));
        }
        r
    }

    /// All properties whose set holds `bit`, in ascending name order.
    pub fn get_properties_with_bit(&self, bit: u32) -> (r: Vec<String>)
        requires
            self.wf(),
        ensures
            forall|a: int, b: int|
                0 <= a < b < r@.len() ==> lex_lt((#[trigger] r@[a])@, (#[trigger] r@[b])@),
            forall|j: int|
                0 <= j < r@.len() ==> self@.dom().contains((#[trigger] r@[j])@)
                    && self@[r@[j]@].contains(bit),
            forall|k: Seq<char>|
                self@.dom().contains(k) && self@[k].contains(bit) ==> exists|j: int|
                    0 <= j < r@.len() && (#[trigger] r@[j])@ == k,
    {
        proof {
            self.lemma_wf_entries();
        }
        let mut result: Vec<String> = Vec::new();
        let ghost mut picked: Seq<int> = Seq::empty();
        let n = self.entries.len();
        let mut i: usize = 0;
        while i < n
            invariant
                0 <= i <= n,
                n == self.entries@.len(),
                self.wf(),
                picked.len() == result@.len(),
                forall|j: int| 0 <= j < picked.len() ==> 0 <= #[trigger] picked[j] < i,
                forall|a: int, b: int| 0 <= a < b < picked.len() ==> picked[a] < picked[b],
                forall|j: int|
                    0 <= j < picked.len() ==> (#[trigger] result@[j]) == self.entries@[picked[j]].0
                        && cis_set(self.entries@[picked[j]].1).contains(bit),
                forall|idx: int|
                    0 <= idx < i && cis_set((#[trigger] self.entries@[idx]).1).contains(bit)
                        ==> exists|j: int| 0 <= j < picked.len() && picked[j] == idx,
            decreases n - i,
        {
            if cis_contains(&self.entries[i].1, bit) {
                result.push(self.entries[i].0.clone());
                proof {
                    let prev = picked;
                    picked = picked.push(i as int);
                    assert(forall|j: int| 0 <= j < prev.len() ==> picked[j] == prev[j]);
                    assert(picked[picked.len() - 1] == i as int);
                    assert forall|idx: int|
                        0 <= idx < i + 1 && cis_set(
                            (#[trigger] self.entries@[idx]).1,
                        ).contains(bit) implies exists|j: int|
                        0 <= j < picked.len() && picked[j] == idx by {
                        if idx == i {
                            assert(picked[picked.len() - 1] == idx);
                        } else {
                            let j0 = choose|j: int| 0 <= j < prev.len() && prev[j] == idx;
                            assert(picked[j0] == idx);
                        }
                    }
                }
            }
            i = i + 1;
        }
        proof {
            self.lemma_wf_entries();
            assert forall|a: int, b: int| 0 <= a < b < result@.len() implies lex_lt(
                (#[trigger] result@[a])@,
                (#[trigger] result@[b])@,
            ) by {
                assert(picked[a] < picked[b]);
                assert(result@[a] == self.entries@[picked[a]].0);
                assert(result@[b] == self.entries@[picked[b]].0);
            }
            assert forall|j: int| 0 <= j < result@.len() implies self@.dom().contains(
                (#[trigger] result@[j])@,
            ) && self@[result@[j]@].contains(bit) by {
                lemma_map_at(self.entries@, picked[j]);
            }
            assert forall|k: Seq<char>|
                self@.dom().contains(k) && self@[k].contains(bit) implies exists|j: int|
                0 <= j < result@.len() && (#[trigger] result@[j])@ == k by {
                let idx = choose|idx: int|
                    0 <= idx < self.entries@.len() && (#[trigger] self.entries@[idx].0@) == k;
                lemma_map_at(self.entries@, idx);
                let j = choose|j: int| 0 <= j < picked.len() && picked[j] == idx;
                assert(result@[j]@ == k);
            }
        }
        result
    }

    /// For every property, set `bit` when the property's name is listed and
    /// unset it otherwise.  Reports whether any set changed.
    pub fn set_properties_with_bit(&mut self, bit: u32, properties: &[String]) -> (r: bool)
        requires
            old(self).wf(),
        ensures
            final(self).wf(),
            final(self)@.dom() == old(self)@.dom(),
            forall|k: Seq<char>|
                old(self)@.dom().contains(k) ==> final(self)@[k] == (if name_listed(
                    properties@,
                    k,
                ) {
                    old(self)@[k].insert(bit)
                } else {
                    old(self)@[k].remove(bit)
                }),
            r == exists|k: Seq<char>| #[trigger] toggles(old(self)@, properties@, bit, k),
    {
        proof {
            self.lemma_wf_entries();
        }
        let ghost s = self.entries@;
        let n = self.entries.len();
        let mut changed = false;
        let mut i: usize = 0;
        while i < n
            invariant
                0 <= i <= n,
                n == self.entries@.len(),
                s.len() == n,
                forall|j: int| 0 <= j < n ==> (#[trigger] self.entries@[j].0) == s[j].0,
                forall|j: int|
                    0 <= j < i ==> cis_set(#[trigger] self.entries@[j].1) == (if name_listed(
                        properties@,
                        s[j].0@,
                    ) {
                        cis_set(s[j].1).insert(bit)
                    } else {
                        cis_set(s[j].1).remove(bit)
                    }),
                forall|j: int| i <= j < n ==> (#[trigger] self.entries@[j].1) == s[j].1,
                entries_finite(self.entries@),
                entries_sorted(s),
                entries_finite(s),
                changed == exists|j: int| 0 <= j < i && #[trigger] entry_toggles(
                    s,
                    properties@,
                    bit,
                    j,
                ),
            decreases n - i,
        {
            let here = if contains_name(properties, self.entries[i].0.as_str()) {
                cis_add_checked(&mut self.entries[i].1, bit)
            } else {
                cis_remove_checked(&mut self.entries[i].1, bit)
            };
            proof {
                if here {
                    assert(entry_toggles(s, properties@, bit, i as int));
                }
                assert(changed || here == exists|j: int|
                    0 <= j <= i && #[trigger] entry_toggles(s, properties@, bit, j)) by {
                    if !changed && !here {
                        assert forall|j: int|
                            0 <= j <= i implies !entry_toggles(s, properties@, bit, j) by {}
                    }
                }
            }
            changed = changed || here;
            i = i + 1;
        }
        proof {
            lemma_sorted_unique(s);
            lemma_map_dom(s);
            self.finish_toggle_update(s, properties@, bit);
            assert forall|k: Seq<char>| #[trigger]
                toggles(entries_map(s), properties@, bit, k) implies exists|j: int|
                0 <= j < s.len() && #[trigger] entry_toggles(s, properties@, bit, j) by {
                let j = choose|j: int| 0 <= j < s.len() && (#[trigger] s[j].0@) == k;
                lemma_map_at(s, j);
                assert(entry_toggles(s, properties@, bit, j));
            }
            assert forall|j: int|
                0 <= j < s.len() && #[trigger] entry_toggles(s, properties@, bit, j) implies
                exists|k: Seq<char>| #[trigger] toggles(entries_map(s), properties@, bit, k) by {
                lemma_map_at(s, j);
                assert(toggles(entries_map(s), properties@, bit, s[j].0@));
            }
        }
        changed
    }

    /// What the toggle pass did to the entry at `j`: whether its set
    /// actually changed.
    proof fn finish_toggle_update(&self, s: Seq<(String, croaring::Bitmap)>, props: Seq<String>, bit: u32)
        requires
            s.len() == self.entries@.len(),
            forall|j: int| 0 <= j < s.len() ==> (#[trigger] self.entries@[j].0) == s[j].0,
            forall|j: int|
                0 <= j < s.len() ==> cis_set(#[trigger] self.entries@[j].1) == (if name_listed(
                    props,
                    s[j].0@,
                ) {
                    cis_set(s[j].1).insert(bit)
                } else {
                    cis_set(s[j].1).remove(bit)
                }),
            entries_finite(self.entries@),
            entries_sorted(s),
            entries_finite(s),
        ensures
            self.wf(),
            self@.dom() == entries_map(s).dom(),
            forall|k: Seq<char>|
                entries_map(s).dom().contains(k) ==> self@[k] == (if name_listed(props, k) {
                    entries_map(s)[k].insert(bit)
                } else {
                    entries_map(s)[k].remove(bit)
                }),
    {
        assert(entries_sorted(self.entries@)) by {
            assert forall|a: int, b: int| 0 <= a < b < self.entries@.len() implies lex_lt(
                #[trigger] self.entries@[a].0@,
                #[trigger] self.entries@[b].0@,
            ) by {
                assert(self.entries@[a].0 == s[a].0 && self.entries@[b].0 == s[b].0);
            }
        }
        lemma_sorted_unique(s);
        lemma_sorted_unique(self.entries@);
        lemma_map_dom(s);
        lemma_map_dom(self.entries@);
        assert forall|k: Seq<char>|
            entries_map(self.entries@).dom().contains(k) implies entries_map(
            s,
        ).dom().contains(k) by {
            let i = choose|i: int|
                0 <= i < self.entries@.len() && (#[trigger] self.entries@[i].0@) == k;
            assert(s[i].0@ == k);
        }
        assert forall|k: Seq<char>| entries_map(s).dom().contains(k) implies entries_map(
            self.entries@,
        ).dom().contains(k) by {
            let i = choose|i: int| 0 <= i < s.len() && (#[trigger] s[i].0@) == k;
            assert(self.entries@[i].0@ == k);
        }
        assert(self@.dom() =~= entries_map(s).dom());
        assert forall|k: Seq<char>| entries_map(s).dom().contains(k) implies self@[k]
            == (if name_listed(props, k) {
            entries_map(s)[k].insert(bit)
        } else {
            entries_map(s)[k].remove(bit)
        }) by {
            let i = choose|i: int| 0 <= i < s.len() && (#[trigger] s[i].0@) == k;
            lemma_map_at(s, i);
            assert(self.entries@[i].0@ == k);
            lemma_map_at(self.entries@, i);
        }
    }

    /// For each covered property, optionally filtered to names with the
    /// given prefix, the size of its intersection with `source`; entries
    /// whose intersection is empty are omitted.  Pairs come in ascending
    /// name order.
    pub fn cardinalities(&self, source: &croaring::Bitmap, prefix: Option<&str>) -> (r: Vec<
        (String, u64),
    >)
        requires
            self.wf(),
            cis_set(*source).finite(),
        ensures
            forall|a: int, b: int|
                0 <= a < b < r@.len() ==> lex_lt((#[trigger] r@[a]).0@, (#[trigger] r@[b]).0@),
            forall|j: int|
                0 <= j < r@.len() ==> self@.dom().contains((#[trigger] r@[j]).0@) && prefix_sel(
                    prefix,
                    r@[j].0@,
                ) && r@[j].1 as nat == cis_set(*source).intersect(self@[r@[j].0@]).len()
                    && r@[j].1 > 0,
            forall|k: Seq<char>|
                self@.dom().contains(k) && prefix_sel(prefix, k) && cis_set(*source).intersect(
                    self@[k],
                ).len() > 0 ==> exists|j: int| 0 <= j < r@.len() && (#[trigger] r@[j]).0@ == k,
    {
        proof {
            self.lemma_wf_entries();
        }
        let mut result: Vec<(String, u64)> = Vec::new();
        let ghost mut picked: Seq<int> = Seq::empty();
        let n = self.entries.len();
        let mut i: usize = 0;
        while i < n
            invariant
                0 <= i <= n,
                n == self.entries@.len(),
                self.wf(),
                cis_set(*source).finite(),
                picked.len() == result@.len(),
                forall|j: int| 0 <= j < picked.len() ==> 0 <= #[trigger] picked[j] < i,
                forall|a: int, b: int| 0 <= a < b < picked.len() ==> picked[a] < picked[b],
                forall|j: int|
                    0 <= j < picked.len() ==> (#[trigger] result@[j]).0
                        == self.entries@[picked[j]].0 && result@[j].1 as nat == cis_set(
                        *source,
                    ).intersect(cis_set(self.entries@[picked[j]].1)).len() && result@[j].1 > 0
                        && prefix_sel(prefix, self.entries@[picked[j]].0@),
                forall|idx: int|
                    0 <= idx < i && prefix_sel(prefix, (#[trigger] self.entries@[idx]).0@)
                        && cis_set(*source).intersect(cis_set(self.entries@[idx].1)).len() > 0
                        ==> exists|j: int| 0 <= j < picked.len() && picked[j] == idx,
            decreases n - i,
        {
            let selected = match prefix {
                None => true,
                Some(p) => str_starts_with(self.entries[i].0.as_str(), p),
            };
            if selected {
                let c = cis_and_cardinality(source, &self.entries[i].1);
                if c > 0 {
                    result.push((self.entries[i].0.clone(), c));
                    proof {
                        let prev = picked;
                        picked = picked.push(i as int);
                        assert(forall|j: int| 0 <= j < prev.len() ==> picked[j] == prev[j]);
                        assert(picked[picked.len() - 1] == i as int);
                        assert forall|idx: int|
                            0 <= idx < i + 1 && prefix_sel(
                                prefix,
                                (#[trigger] self.entries@[idx]).0@,
                            ) && cis_set(*source).intersect(cis_set(self.entries@[idx].1)).len()
                                > 0 implies exists|j: int|
                            0 <= j < picked.len() && picked[j] == idx by {
                            if idx == i {
                                assert(picked[picked.len() - 1] == idx);
                            } else {
                                let j0 = choose|j: int| 0 <= j < prev.len() && prev[j] == idx;
                                assert(picked[j0] == idx);
                            }
                        }
                    }
                }
            }
            i = i + 1;
        }
        proof {
            self.lemma_wf_entries();
            assert forall|a: int, b: int| 0 <= a < b < result@.len() implies lex_lt(
                (#[trigger] result@[a]).0@,
                (#[trigger] result@[b]).0@,
            ) by {
                assert(picked[a] < picked[b]);
                assert(result@[a].0 == self.entries@[picked[a]].0);
                assert(result@[b].0 == self.entries@[picked[b]].0);
            }
            assert forall|j: int| 0 <= j < result@.len() implies self@.dom().contains(
                (#[trigger] result@[j]).0@,
            ) && prefix_sel(prefix, result@[j].0@) && result@[j].1 as nat == cis_set(
                *source,
            ).intersect(self@[result@[j].0@]).len() && result@[j].1 > 0 by {
                lemma_map_at(self.entries@, picked[j]);
            }
            assert forall|k: Seq<char>|
                self@.dom().contains(k) && prefix_sel(prefix, k) && cis_set(*source).intersect(
                    self@[k],
                ).len() > 0 implies exists|j: int|
                0 <= j < result@.len() && (#[trigger] result@[j]).0@ == k by {
                let idx = choose|idx: int|
                    0 <= idx < self.entries@.len() && (#[trigger] self.entries@[idx].0@) == k;
                lemma_map_at(self.entries@, idx);
                let j = choose|j: int| 0 <= j < picked.len() && picked[j] == idx;
                assert(result@[j].0@ == k);
            }
        }
        result
    }

    /// A deep copy: the same properties with the same sets.
    pub fn duplicate(&self) -> (r: Index)
        requires
            self.wf(),
        ensures
            r.wf(),
            r@ == self@,
    {
        proof {
            self.lemma_wf_entries();
        }
        let mut entries: Vec<(String, croaring::Bitmap)> = Vec::new();
        let n = self.entries.len();
        let mut i: usize = 0;
        while i < n
            invariant
                0 <= i <= n,
                n == self.entries@.len(),
                self.wf(),
                entries@.len() == i,
                forall|j: int|
                    0 <= j < i ==> (#[trigger] entries@[j]).0 == self.entries@[j].0 && cis_set(
                        entries@[j].1,
                    ) == cis_set(self.entries@[j].1),
            decreases n - i,
        {
            entries.push((self.entries[i].0.clone(), cis_clone(&self.entries[i].1)));
            i = i + 1;
        }
        let r = Index { entries };
        proof {
            self.lemma_wf_entries();
            assert(entries_sorted(r.entries@)) by {
                assert forall|a: int, b: int| 0 <= a < b < r.entries@.len() implies lex_lt(
                    #[trigger] r.entries@[a].0@,
                    #[trigger] r.entries@[b].0@,
                ) by {
                    assert(r.entries@[a].0 == self.entries@[a].0);
                    assert(r.entries@[b].0 == self.entries@[b].0);
                }
            }
            lemma_map_congruent(r.entries@, self.entries@);
            assert(r@ =~= self@);
        }
        r
    }

    /// Whether two indexes denote the same map: the same properties with the
    /// same sets.
    pub fn eq_index(&self, other: &Index) -> (r: bool)
        requires
            self.wf(),
            other.wf(),
        ensures
            r == (self@ == other@),
    {
        proof {
            self.lemma_wf_entries();
            other.lemma_wf_entries();
        }
        let n = self.entries.len();
        if n != other.entries.len() {
            proof {
                assert(self@.dom().len() != other@.dom().len());
                if self@ == other@ {
                    assert(self@.dom() == other@.dom());
                }
            }
            return false;
        }
        let mut i: usize = 0;
        while i < n
            invariant
                0 <= i <= n,
                self.wf(),
                other.wf(),
                n == self.entries@.len(),
                n == other.entries@.len(),
                forall|j: int|
                    0 <= j < i ==> (#[trigger] self.entries@[j]).0@ == other.entries@[j].0@
                        && cis_set(self.entries@[j].1) == cis_set(other.entries@[j].1),
            decreases n - i,
        {
            if !str_eq(self.entries[i].0.as_str(), other.entries[i].0.as_str()) || !cis_eq(
                &self.entries[i].1,
                &other.entries[i].1,
            ) {
                proof {
                    if self@ == other@ {
                        lemma_equal_maps_pointwise(self.entries@, other.entries@);
                    }
                }
                return false;
            }
            i = i + 1;
        }
        proof {
            lemma_map_congruent(self.entries@, other.entries@);
            assert(self@ =~= other@);
        }
        true
    }
}

/// Per-set statistics: how many identifiers a set holds and its extremes.
#[derive(Debug, PartialEq, Eq, Clone, Default)]
pub struct Stats {
    pub cardinality: u64,
    pub minimum: Option<u32>,
    pub maximum: Option<u32>,
}

impl Stats {
    /// What it means for these statistics to describe the set `s`.
    pub open spec fn describes(&self, s: Set<u32>) -> bool {
        &&& s.finite() ==> self.cardinality as nat == s.len()
        &&& match self.minimum {
            Some(m) => s.contains(m) && (forall|x: u32| s.contains(x) ==> m <= x),
            None => s == Set::<u32>::empty(),
        }
        &&& match self.maximum {
            Some(m) => s.contains(m) && (forall|x: u32| s.contains(x) ==> x <= m),
            None => s == Set::<u32>::empty(),
        }
    }

    /// The statistics of one set.
    pub fn of_bitmap(bm: &croaring::Bitmap) -> (r: Stats)
        ensures
            r.describes(cis_set(*bm)),
    {
        Stats {
            cardinality: cis_cardinality(bm),
            minimum: cis_minimum(bm),
            maximum: cis_maximum(bm),
        }
    }
}

impl Index {
    /// The statistics of the root set.
    pub fn stats(&self) -> (r: Stats)
        requires
            self.wf(),
        ensures
            r.describes(root_set(self@)),
    {
        let root = self.root();
        Stats::of_bitmap(&root)
    }

    /// Repack every stored set; the contents do not change.
    pub fn optimize(&mut self)
        requires
            old(self).wf(),
        ensures
            final(self).wf(),
            final(self)@ == old(self)@,
    {
        proof {
            self.lemma_wf_entries();
        }
        let ghost s = self.entries@;
        let n = self.entries.len();
        let mut i: usize = 0;
        while i < n
            invariant
                0 <= i <= n,
                n == self.entries@.len(),
                s.len() == n,
                forall|j: int| 0 <= j < n ==> (#[trigger] self.entries@[j].0) == s[j].0,
                forall|j: int|
                    0 <= j < n ==> cis_set(#[trigger] self.entries@[j].1) == cis_set(s[j].1),
                entries_sorted(s),
                entries_finite(s),
            decreases n - i,
        {
            cis_optimize(&mut self.entries[i].1);
            i = i + 1;
        }
        proof {
            assert(entries_sorted(self.entries@)) by {
                assert forall|a: int, b: int| 0 <= a < b < self.entries@.len() implies lex_lt(
                    #[trigger] self.entries@[a].0@,
                    #[trigger] self.entries@[b].0@,
                ) by {
                    assert(self.entries@[a].0 == s[a].0 && self.entries@[b].0 == s[b].0);
                }
            }
            assert(entries_finite(self.entries@)) by {
                assert forall|j: int| 0 <= j < self.entries@.len() implies cis_set(
                    #[trigger] self.entries@[j].1,
                ).finite() by {
                    assert(cis_set(self.entries@[j].1) == cis_set(s[j].1));
                }
            }
            lemma_map_congruent(self.entries@, s);
            assert(final(self)@ =~= old(self)@);
        }
    }
}

/// The left fold of intersections: the meaning of an `and` node.
pub open spec fn and_fold(sets: Seq<Set<u32>>) -> Set<u32>
    decreases sets.len(),
{
    if sets.len() == 0 {
        Set::<u32>::empty()
    } else if sets.len() == 1 {
        sets[0]
    } else {
        and_fold(sets.drop_last()).intersect(sets.last())
    }
}

/// The left fold of differences: the meaning of a `-` node.
pub open spec fn sub_fold(sets: Seq<Set<u32>>) -> Set<u32>
    decreases sets.len(),
{
    if sets.len() == 0 {
        Set::<u32>::empty()
    } else if sets.len() == 1 {
        sets[0]
    } else {
        sub_fold(sets.drop_last()).difference(sets.last())
    }
}

/// The meaning of an expression against an index model: the denoted set, or
/// the first property name, in evaluation order, that the index does not
/// hold.
pub open spec fn eval(m: Map<Seq<char>, Set<u32>>, e: SpecExpr) -> Result<Set<u32>, Seq<char>>
    decreases e,
{
    match e {
        SpecExpr::Root => Ok(root_set(m)),
        SpecExpr::Property(n) => if m.dom().contains(n) {
            Ok(m[n])
        } else {
            Err(n)
        },
        SpecExpr::And(cs) => match eval_all(m, cs) {
            Ok(sets) => Ok(and_fold(sets)),
            Err(n) => Err(n),
        },
        SpecExpr::Or(cs) => match eval_all(m, cs) {
            Ok(sets) => Ok(union_of_sets(sets)),
            Err(n) => Err(n),
        },
        SpecExpr::Xor(cs) => match eval_all(m, cs) {
            Ok(sets) => Ok(xor_of_sets(sets)),
            Err(n) => Err(n),
        },
        SpecExpr::Sub(cs) => match eval_all(m, cs) {
            Ok(sets) => Ok(sub_fold(sets)),
            Err(n) => Err(n),
        },
        SpecExpr::Not(b) => match eval(m, *b) {
            Ok(s) => Ok(root_set(m).difference(s)),
            Err(n) => Err(n),
        },
    }
}

/// The meanings of a sequence of children, or the first failure among them.
pub open spec fn eval_all(m: Map<Seq<char>, Set<u32>>, cs: Seq<SpecExpr>) -> Result<
    Seq<Set<u32>>,
    Seq<char>,
>
    decreases cs,
{
    if cs.len() == 0 {
        Ok(Seq::<Set<u32>>::empty())
    } else {
        match eval(m, cs[0]) {
            Ok(s) => match eval_all(m, cs.drop_first()) {
                Ok(rest) => Ok(seq![s] + rest),
                Err(n) => Err(n),
            },
            Err(n) => Err(n),
        }
    }
}

/// The set an expression evaluates to, where it evaluates at all.
pub open spec fn eval_ok(m: Map<Seq<char>, Set<u32>>, e: SpecExpr) -> Set<u32> {
    match eval(m, e) {
        Ok(s) => s,
        Err(_) => Set::<u32>::empty(),
    }
}

/// When every child evaluates, the children's meanings line up with the
/// children.
pub proof fn lemma_eval_all_ok(m: Map<Seq<char>, Set<u32>>, cs: Seq<SpecExpr>)
    requires
        forall|j: int| 0 <= j < cs.len() ==> eval(m, #[trigger] cs[j]) is Ok,
    ensures
        eval_all(m, cs) == Ok::<Seq<Set<u32>>, Seq<char>>(
            Seq::new(cs.len(), |j: int| eval_ok(m, cs[j])),
        ),
    decreases cs,
{
    if cs.len() == 0 {
        assert(Seq::new(cs.len(), |j: int| eval_ok(m, cs[j])) =~= Seq::<Set<u32>>::empty());
    } else {
        assert(forall|j: int|
            0 <= j < cs.drop_first().len() ==> eval(m, #[trigger] cs.drop_first()[j]) is Ok);
        lemma_eval_all_ok(m, cs.drop_first());
        assert(Seq::new(cs.len(), |j: int| eval_ok(m, cs[j])) =~= seq![eval_ok(m, cs[0])]
            + Seq::new(cs.drop_first().len(), |j: int| eval_ok(m, cs.drop_first()[j])));
    }
}

/// When the first failing child is at `i`, the whole sequence fails with
/// its name.
pub proof fn lemma_eval_all_err(m: Map<Seq<char>, Set<u32>>, cs: Seq<SpecExpr>, i: int, n: Seq<char>)
    requires
        0 <= i < cs.len(),
        forall|j: int| 0 <= j < i ==> eval(m, #[trigger] cs[j]) is Ok,
        eval(m, cs[i]) == Err::<Set<u32>, Seq<char>>(n),
    ensures
        eval_all(m, cs) == Err::<Seq<Set<u32>>, Seq<char>>(n),
    decreases cs,
{
    if i == 0 {
    } else {
        assert(forall|j: int| 0 <= j < i - 1 ==> eval(m, #[trigger] cs.drop_first()[j]) is Ok);
        assert(cs.drop_first()[i - 1] == cs[i]);
        lemma_eval_all_err(m, cs.drop_first(), i - 1, n);
    }
}

impl Index {
    /// Evaluate an expression against the index: `*` is the root set, a
    /// property is a copy of its stored set, `and`/`or`/`xor`/`-` fold
    /// their children, and `not` is the difference from the root set.  A
    /// property the index does not hold fails the query.
    #[verifier::loop_isolation(false)]
    pub fn execute(&self, expression: &Expression) -> (r: Result<croaring::Bitmap, Error>)
        requires
            self.wf(),
            nonempty_nary(expression@),
        ensures
            match r {
                Ok(bm) => eval(self@, expression@) == Ok::<Set<u32>, Seq<char>>(cis_set(bm))
                    && cis_set(bm).finite(),
                Err(err) => match err {
                    Error::PropertyDoesNotExist(n) => eval(self@, expression@) == Err::<
                        Set<u32>,
                        Seq<char>,
                    >(n@),
                },
            },
        decreases expression,
    {
        proof {
            broadcast use vstd::seq::group_seq_axioms;
        }
        match expression {
            Expression::Root => Ok(self.root()),
            Expression::Property(name) => {
                proof {
                    self.lemma_wf_entries();
                }
                match self.get_property(name.as_str()) {
                    Some(b) => Ok(cis_clone(b)),
                    None => Err(Error::PropertyDoesNotExist(name.clone())),
                }
            },
            Expression::And(cs) => {
                proof {
                    lemma_view_seq(cs@);
                }
                let ghost vcs = view_seq(cs@);
                let mut res = match self.execute(&cs[0]) {
                    Ok(b) => b,
                    Err(e) => {
                        proof {
                            if let Error::PropertyDoesNotExist(n) = &e {
                                lemma_eval_all_err(self@, vcs, 0, n@);
                            }
                        }
                        return Err(e);
                    },
                };
                let n = cs.len();
                let mut i: usize = 1;
                while i < n
                    invariant
                        1 <= i <= n,
                        n == cs@.len(),
                        self.wf(),
                        vcs == view_seq(cs@),
                        vcs.len() == n,
                        forall|j: int| 0 <= j < n ==> vcs[j] == (#[trigger] cs@[j])@,
                        forall|j: int| 0 <= j < n ==> nonempty_nary(#[trigger] vcs[j]),
                        forall|j: int| 0 <= j < i ==> eval(self@, #[trigger] vcs[j]) is Ok,
                        cis_set(res) == and_fold(Seq::new(i as nat, |j: int| eval_ok(self@, vcs[j]))),
                        cis_set(res).finite(),
                    decreases n - i,
                {
                    match self.execute(&cs[i]) {
                        Ok(b) => {
                            cis_and_inplace(&mut res, &b);
                            proof {
                                let pre = Seq::new(i as nat, |j: int| eval_ok(self@, vcs[j]));
                                let post = Seq::new(
                                    (i + 1) as nat,
                                    |j: int| eval_ok(self@, vcs[j]),
                                );
                                assert(post.drop_last() =~= pre);
                                assert(post.last() == eval_ok(self@, vcs[i as int]));
                                assert(cis_set(res) == and_fold(post));
                            }
                        },
                        Err(e) => {
                            proof {
                                if let Error::PropertyDoesNotExist(nm) = &e {
                                    lemma_eval_all_err(self@, vcs, i as int, nm@);
                                }
                            }
                            return Err(e);
                        },
                    }
                    i = i + 1;
                }
                proof {
                    lemma_eval_all_ok(self@, vcs);
                    assert(Seq::new(n as nat, |j: int| eval_ok(self@, vcs[j])) =~= Seq::new(
                        vcs.len(),
                        |j: int| eval_ok(self@, vcs[j]),
                    ));
                }
                Ok(res)
            },
            Expression::Sub(cs) => {
                proof {
                    lemma_view_seq(cs@);
                }
                let ghost vcs = view_seq(cs@);
                let mut res = match self.execute(&cs[0]) {
                    Ok(b) => b,
                    Err(e) => {
                        proof {
                            if let Error::PropertyDoesNotExist(n) = &e {
                                lemma_eval_all_err(self@, vcs, 0, n@);
                            }
                        }
                        return Err(e);
                    },
                };
                let n = cs.len();
                let mut i: usize = 1;
                while i < n
                    invariant
                        1 <= i <= n,
                        n == cs@.len(),
                        self.wf(),
                        vcs == view_seq(cs@),
                        vcs.len() == n,
                        forall|j: int| 0 <= j < n ==> vcs[j] == (#[trigger] cs@[j])@,
                        forall|j: int| 0 <= j < n ==> nonempty_nary(#[trigger] vcs[j]),
                        forall|j: int| 0 <= j < i ==> eval(self@, #[trigger] vcs[j]) is Ok,
                        cis_set(res) == sub_fold(Seq::new(i as nat, |j: int| eval_ok(self@, vcs[j]))),
                        cis_set(res).finite(),
                    decreases n - i,
                {
                    match self.execute(&cs[i]) {
                        Ok(b) => {
                            cis_andnot_inplace(&mut res, &b);
                            proof {
                                let pre = Seq::new(i as nat, |j: int| eval_ok(self@, vcs[j]));
                                let post = Seq::new(
                                    (i + 1) as nat,
                                    |j: int| eval_ok(self@, vcs[j]),
                                );
                                assert(post.drop_last() =~= pre);
                                assert(post.last() == eval_ok(self@, vcs[i as int]));
                                assert(cis_set(res) == sub_fold(post));
                            }
                        },
                        Err(e) => {
                            proof {
                                if let Error::PropertyDoesNotExist(nm) = &e {
                                    lemma_eval_all_err(self@, vcs, i as int, nm@);
                                }
                            }
                            return Err(e);
                        },
                    }
                    i = i + 1;
                }
                proof {
                    lemma_eval_all_ok(self@, vcs);
                    assert(Seq::new(n as nat, |j: int| eval_ok(self@, vcs[j])) =~= Seq::new(
                        vcs.len(),
                        |j: int| eval_ok(self@, vcs[j]),
                    ));
                }
                Ok(res)
            },
            Expression::Or(cs) => {
                proof {
                    lemma_view_seq(cs@);
                }
                match self.execute_children(cs) {
                    Ok(owned) => {
                        let ghost vcs = view_seq(cs@);
                        let mut refs: Vec<&croaring::Bitmap> = Vec::new();
                        let n = owned.len();
                        let mut i: usize = 0;
                        while i < n
                            invariant
                                0 <= i <= n,
                                n == owned@.len(),
                                refs@.len() == i,
                                forall|j: int|
                                    0 <= j < i ==> cis_set(*(#[trigger] refs@[j])) == cis_set(
                                        owned@[j],
                                    ),
                            decreases n - i,
                        {
                            refs.push(&owned[i]);
                            i = i + 1;
                        }
                        let r = cis_fast_or(&refs);
                        proof {
                            lemma_eval_all_ok(self@, vcs);
                            assert(sets_of(refs@) =~= Seq::new(
                                vcs.len(),
                                |j: int| eval_ok(self@, vcs[j]),
                            ));
                            assert(all_finite(refs@));
                            lemma_union_of_sets_finite(sets_of(refs@));
                        }
                        Ok(r)
                    },
                    Err(e) => Err(e),
                }
            },
            Expression::Xor(cs) => {
                proof {
                    lemma_view_seq(cs@);
                }
                match self.execute_children(cs) {
                    Ok(owned) => {
                        let ghost vcs = view_seq(cs@);
                        let mut refs: Vec<&croaring::Bitmap> = Vec::new();
                        let n = owned.len();
                        let mut i: usize = 0;
                        while i < n
                            invariant
                                0 <= i <= n,
                                n == owned@.len(),
                                refs@.len() == i,
                                forall|j: int|
                                    0 <= j < i ==> cis_set(*(#[trigger] refs@[j])) == cis_set(
                                        owned@[j],
                                    ),
                            decreases n - i,
                        {
                            refs.push(&owned[i]);
                            i = i + 1;
                        }
                        let r = cis_fast_xor(&refs);
                        proof {
                            lemma_eval_all_ok(self@, vcs);
                            assert(sets_of(refs@) =~= Seq::new(
                                vcs.len(),
                                |j: int| eval_ok(self@, vcs[j]),
                            ));
                            assert(all_finite(refs@));
                            lemma_xor_of_sets_finite(sets_of(refs@));
                        }
                        Ok(r)
                    },
                    Err(e) => Err(e),
                }
            },
            Expression::Not(b) => {
                let root = self.root();
                match self.execute(&**b) {
                    Ok(inner) => {
                        let mut r = root;
                        cis_andnot_inplace(&mut r, &inner);
                        Ok(r)
                    },
                    Err(e) => Err(e),
                }
            },
        }
    }

    /// Evaluate every child, or return the first failure.
    #[verifier::loop_isolation(false)]
    fn execute_children(&self, cs: &Vec<Expression>) -> (r: Result<Vec<croaring::Bitmap>, Error>)
        requires
            self.wf(),
            forall|j: int| 0 <= j < cs@.len() ==> nonempty_nary((#[trigger] cs@[j])@),
        ensures
            match r {
                Ok(owned) => owned@.len() == cs@.len() && (forall|j: int|
                    0 <= j < cs@.len() ==> eval(self@, #[trigger] view_seq(cs@)[j]) is Ok)
                    && (forall|j: int|
                    0 <= j < cs@.len() ==> cis_set(#[trigger] owned@[j]) == eval_ok(
                        self@,
                        view_seq(cs@)[j],
                    ) && cis_set(owned@[j]).finite()),
                Err(err) => match err {
                    Error::PropertyDoesNotExist(n) => eval_all(self@, view_seq(cs@)) == Err::<
                        Seq<Set<u32>>,
                        Seq<char>,
                    >(n@),
                },
            },
        decreases cs,
    {
        proof {
            lemma_view_seq(cs@);
        }
        let ghost vcs = view_seq(cs@);
        let mut owned: Vec<croaring::Bitmap> = Vec::new();
        let n = cs.len();
        let mut i: usize = 0;
        while i < n
            invariant
                0 <= i <= n,
                n == cs@.len(),
                self.wf(),
                vcs == view_seq(cs@),
                vcs.len() == n,
                forall|j: int| 0 <= j < n ==> vcs[j] == (#[trigger] cs@[j])@,
                forall|j: int| 0 <= j < n ==> nonempty_nary((#[trigger] cs@[j])@),
                owned@.len() == i,
                forall|j: int| 0 <= j < i ==> eval(self@, #[trigger] vcs[j]) is Ok,
                forall|j: int|
                    0 <= j < i ==> cis_set(#[trigger] owned@[j]) == eval_ok(self@, vcs[j])
                        && cis_set(owned@[j]).finite(),
            decreases n - i,
        {
            match self.execute(&cs[i]) {
                Ok(b) => {
                    owned.push(b);
                },
                Err(e) => {
                    proof {
                        if let Error::PropertyDoesNotExist(nm) = &e {
                            lemma_eval_all_err(self@, vcs, i as int, nm@);
                        }
                    }
                    return Err(e);
                },
            }
            i = i + 1;
        }
        Ok(owned)
    }
}

/// Whether `k` is the view of one of the listed names.
pub open spec fn name_listed(props: Seq<String>, k: Seq<char>) -> bool {
    exists|i: int| 0 <= i < props.len() && (#[trigger] props[i]@) == k
}

/// Whether setting `bit` on exactly the listed properties would change the
/// set stored under `k`.
pub open spec fn toggles(m: Map<Seq<char>, Set<u32>>, props: Seq<String>, bit: u32, k: Seq<char>) -> bool {
    m.dom().contains(k) && (if name_listed(props, k) {
        !m[k].contains(bit)
    } else {
        m[k].contains(bit)
    })
}

/// Whether the toggle pass changes the set of the entry at `j`.
pub open spec fn entry_toggles(s: Seq<(String, croaring::Bitmap)>, props: Seq<String>, bit: u32, j: int) -> bool {
    0 <= j < s.len() && (if name_listed(props, s[j].0@) {
        !cis_set(s[j].1).contains(bit)
    } else {
        cis_set(s[j].1).contains(bit)
    })
}

/// Whether a name, viewed, satisfies the optional prefix filter.
pub open spec fn prefix_sel(prefix: Option<&str>, k: Seq<char>) -> bool {
    match prefix {
        None => true,
        Some(p) => p@.is_prefix_of(k),
    }
}

/// Whether `name` is one of the listed names, decided by comparison.
fn contains_name(props: &[String], name: &str) -> (r: bool)
    ensures
        r == name_listed(props@, name@),
{
    let n = props.len();
    let mut i: usize = 0;
    while i < n
        invariant
            0 <= i <= n,
            n == props@.len(),
            forall|j: int| 0 <= j < i ==> (#[trigger] props@[j]@) != name@,
        decreases n - i,
    {
        if str_eq(props[i].as_str(), name) {
            return true;
        }
        i = i + 1;
    }
    false
}

/// Entry sequences with pointwise equal names and sets denote the same map.
pub proof fn lemma_map_congruent(s: Seq<(String, croaring::Bitmap)>, t: Seq<(String, croaring::Bitmap)>)
    requires
        s.len() == t.len(),
        forall|i: int|
            0 <= i < s.len() ==> (#[trigger] s[i]).0@ == t[i].0@ && cis_set(s[i].1) == cis_set(
                t[i].1,
            ),
    ensures
        entries_map(s) =~= entries_map(t),
    decreases s.len(),
{
    if s.len() > 0 {
        lemma_map_congruent(s.drop_last(), t.drop_last());
        assert(s.last().0@ == t.last().0@ && cis_set(s.last().1) == cis_set(t.last().1)) by {
            assert(s[s.len() - 1].0@ == t[t.len() - 1].0@);
        }
    }
}

/// Two sorted entry sequences denoting the same map are pointwise equal in
/// names and sets.
pub proof fn lemma_equal_maps_pointwise(s: Seq<(String, croaring::Bitmap)>, t: Seq<(String, croaring::Bitmap)>)
    requires
        entries_sorted(s),
        entries_sorted(t),
        entries_map(s) == entries_map(t),
    ensures
        s.len() == t.len(),
        forall|i: int|
            0 <= i < s.len() ==> (#[trigger] s[i]).0@ == t[i].0@ && cis_set(s[i].1) == cis_set(
                t[i].1,
            ),
    decreases s.len(),
{
    lemma_sorted_unique(s);
    lemma_sorted_unique(t);
    lemma_map_len(s);
    lemma_map_len(t);
    assert(entries_map(s).dom() == entries_map(t).dom());
    assert(s.len() == t.len());
    if s.len() > 0 {
        lemma_map_dom(s);
        lemma_map_dom(t);
        let sl = s.last().0@;
        let tl = t.last().0@;
        assert(s[s.len() - 1].0@ == sl && t[t.len() - 1].0@ == tl);
        assert(entries_map(s).dom().contains(sl) && entries_map(t).dom().contains(tl));
        assert(sl == tl) by {
            let i = choose|i: int| 0 <= i < t.len() && (#[trigger] t[i].0@) == sl;
            let j = choose|j: int| 0 <= j < s.len() && (#[trigger] s[j].0@) == tl;
            if i < t.len() - 1 {
                assert(lex_lt(sl, tl));
            }
            if j < s.len() - 1 {
                assert(lex_lt(tl, sl));
            }
            lemma_lex_asymm(sl, tl);
            lemma_lex_asymm(tl, sl);
        }
        assert(cis_set(s.last().1) == cis_set(t.last().1)) by {
            lemma_map_at(s, s.len() - 1);
            lemma_map_at(t, t.len() - 1);
        }
        assert(entries_map(s.drop_last()) == entries_map(t.drop_last())) by {
            lemma_map_remove_at(s, s.len() - 1);
            lemma_map_remove_at(t, t.len() - 1);
            assert(s.remove(s.len() - 1) =~= s.drop_last());
            assert(t.remove(t.len() - 1) =~= t.drop_last());
            assert(entries_map(s.drop_last()) =~= entries_map(s).remove(sl));
            assert(entries_map(t.drop_last()) =~= entries_map(t).remove(tl));
        }
        assert(entries_sorted(s.drop_last()) && entries_sorted(t.drop_last())) by {
            assert(forall|a: int, b: int|
                0 <= a < b < s.drop_last().len() ==> lex_lt(
                    (#[trigger] s.drop_last()[a]).0@,
                    (#[trigger] s.drop_last()[b]).0@,
                ));
            assert(forall|a: int, b: int|
                0 <= a < b < t.drop_last().len() ==> lex_lt(
                    (#[trigger] t.drop_last()[a]).0@,
                    (#[trigger] t.drop_last()[b]).0@,
                ));
        }
        lemma_equal_maps_pointwise(s.drop_last(), t.drop_last());
        assert forall|i: int| 0 <= i < s.len() implies (#[trigger] s[i]).0@ == t[i].0@ && cis_set(
            s[i].1,
        ) == cis_set(t[i].1) by {
            if i < s.len() - 1 {
                assert(s.drop_last()[i] == s[i] && t.drop_last()[i] == t[i]);
            }
        }
    }
}

} // verus!
