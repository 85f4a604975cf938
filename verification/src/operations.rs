//! Request payloads: one type per operation the service accepts, each with a
//! `run` method against the index.  Read operations take the index shared;
//! write operations take it exclusively.

use vstd::prelude::*;
use vstd::string::StringSliceAdditionalSpecFns;

use crate::cis::{cis_cardinality, cis_set, cis_to_vec};
use crate::expression::{Expression, MAX_LENGTH};
use crate::index::{eval, name_listed, prefix_sel, root_set, stored_or_empty, toggles, Index};
use crate::parser::{spec_expression, SpecParse};
use crate::encoding::is_ascending_enum;
use crate::text::lex_lt;

verus! {

/// Why an operation was refused.
#[derive(Debug)]
pub enum OperationError {
    /// The service is in read-only mode and the operation writes.
    ReadOnly,
    /// The query does not parse.
    Expression(crate::expression::Error),
    /// The query names a property the index does not hold.
    Index(crate::index::Error),
}

/// Whether the query text parses completely.
pub open spec fn parses_fully(q: &String) -> bool {
    &&& vstd::utf8::encode_utf8(q@).len() <= MAX_LENGTH
    &&& spec_expression(q@) matches SpecParse::Found(e, j) && j == q@.len()
}

/// The expression a fully parsing query denotes.
pub open spec fn parsed_expr(q: &String) -> crate::expression::SpecExpr {
    crate::parser::found_expr(spec_expression(q@))
}

/// The kinds of operation the service accepts.
#[derive(Debug, Clone, Copy)]
pub enum OperationKind {
    Query,
    Count,
    Stats,
    SetOp,
    SetMany,
    Unset,
    UnsetMany,
    GetBit,
    SetBit,
    DeleteBits,
}

/// Whether an operation of this kind writes to the index.
pub open spec fn is_mutation(kind: OperationKind) -> bool {
    match kind {
        OperationKind::Query => false,
        OperationKind::Count => false,
        OperationKind::Stats => false,
        OperationKind::GetBit => false,
        OperationKind::SetOp => true,
        OperationKind::SetMany => true,
        OperationKind::Unset => true,
        OperationKind::UnsetMany => true,
        OperationKind::SetBit => true,
        OperationKind::DeleteBits => true,
    }
}

/// Decide whether an operation may run: a mutating operation is refused
/// exactly when the service is read-only; reading operations always pass.
pub fn admit_operation(kind: OperationKind, read_only: bool) -> (r: Result<(), OperationError>)
    ensures
        r is Ok <==> !(read_only && is_mutation(kind)),
        r matches Err(e) ==> e is ReadOnly,
{
    let mutates = match kind {
        OperationKind::Query => false,
        OperationKind::Count => false,
        OperationKind::Stats => false,
        OperationKind::GetBit => false,
        OperationKind::SetOp => true,
        OperationKind::SetMany => true,
        OperationKind::Unset => true,
        OperationKind::UnsetMany => true,
        OperationKind::SetBit => true,
        OperationKind::DeleteBits => true,
    };
    if read_only && mutates {
        Err(OperationError::ReadOnly)
    } else {
        Ok(())
    }
}

/// Run a query and return the matching identifiers, optionally with the
/// cardinality of the result's intersection with every stored property.
pub struct Query {
    pub query: String,
    pub include_cardinalities: Option<bool>,
}

/// What a query returned: the identifiers, ascending, and optionally the
/// per-property intersection sizes, ascending by name with zero entries
/// omitted.
pub struct QueryResult {
    pub values: Vec<u32>,
    pub cardinalities: Option<Vec<(String, u64)>>,
}

impl Query {
    pub fn run(self, index: &Index) -> (r: Result<QueryResult, OperationError>)
        requires
            index.wf(),
        ensures
            match r {
                Ok(qr) => {
                    &&& parses_fully(&self.query)
                    &&& eval(index@, parsed_expr(&self.query)) matches Ok(s)
                        && is_ascending_enum(qr.values@, s)
                    &&& (self.include_cardinalities == Some(true) <==> qr.cardinalities is Some)
                    &&& match qr.cardinalities {
                        Some(cs) => {
                            let s = eval(index@, parsed_expr(&self.query))->Ok_0;
                            &&& forall|a: int, b: int|
                                0 <= a < b < cs.len() ==> lex_lt(
                                    (#[trigger] cs[a]).0@,
                                    (#[trigger] cs[b]).0@,
                                )
                            &&& forall|j: int|
                                0 <= j < cs.len() ==> index@.dom().contains((#[trigger] cs[j]).0@)
                                    && cs[j].1 as nat == s.intersect(index@[cs[j].0@]).len()
                                    && cs[j].1 > 0
                            &&& forall|k: Seq<char>|
                                index@.dom().contains(k) && s.intersect(index@[k]).len() > 0
                                    ==> exists|j: int| 0 <= j < cs.len() && (#[trigger] cs[j]).0@
                                    == k
                        },
                        None => true,
                    }
                },
                Err(OperationError::Expression(_)) => !parses_fully(&self.query),
                Err(OperationError::Index(crate::index::Error::PropertyDoesNotExist(nm))) =>
                    parses_fully(&self.query) && eval(index@, parsed_expr(&self.query)) == Err::<
                    Set<u32>,
                    Seq<char>,
                >(nm@),
                Err(OperationError::ReadOnly) => false,
            },
    {
        let expr = match Expression::parse(self.query.as_str()) {
            Ok(e) => e,
            Err(e) => {
                return Err(OperationError::Expression(e));
            },
        };
        let bm = match index.execute(&expr) {
            Ok(b) => b,
            Err(e) => {
                return Err(OperationError::Index(e));
            },
        };
        let cardinalities = match self.include_cardinalities {
            Some(true) => {
                let cs = index.cardinalities(&bm, None);
                proof {
                    assert forall|k: Seq<char>|
                        index@.dom().contains(k) && cis_set(bm).intersect(index@[k]).len()
                            > 0 implies exists|j: int|
                        0 <= j < cs@.len() && (#[trigger] cs@[j]).0@ == k by {
                        assert(prefix_sel(None::<&str>, k));
                    }
                }
                Some(cs)
            },
            _ => None,
        };
        Ok(QueryResult { values: cis_to_vec(&bm), cardinalities })
    }
}

/// Count the identifiers a query matches.
pub struct Count {
    pub query: String,
}

impl Count {
    pub fn run(self, index: &Index) -> (r: Result<u64, OperationError>)
        requires
            index.wf(),
        ensures
            match r {
                Ok(c) => parses_fully(&self.query) && (eval(index@, parsed_expr(&self.query))
                    matches Ok(s) && c as nat == s.len()),
                Err(OperationError::Expression(_)) => !parses_fully(&self.query),
                Err(OperationError::Index(crate::index::Error::PropertyDoesNotExist(nm))) =>
                    parses_fully(&self.query) && eval(index@, parsed_expr(&self.query)) == Err::<
                    Set<u32>,
                    Seq<char>,
                >(nm@),
                Err(OperationError::ReadOnly) => false,
            },
    {
        let expr = match Expression::parse(self.query.as_str()) {
            Ok(e) => e,
            Err(e) => {
                return Err(OperationError::Expression(e));
            },
        };
        let bm = match index.execute(&expr) {
            Ok(b) => b,
            Err(e) => {
                return Err(OperationError::Index(e));
            },
        };
        Ok(cis_cardinality(&bm))
    }
}

/// Describe the whole index: the root set and every property.
pub struct Stats {
}

/// The statistics of the root set and of each property, in ascending name
/// order.
pub struct StatsResult {
    pub root: crate::index::Stats,
    pub properties: Vec<(String, crate::index::Stats)>,
}

impl Stats {
    pub fn run(self, index: &Index) -> (r: StatsResult)
        requires
            index.wf(),
        ensures
            r.root.describes(root_set(index@)),
            r.properties@.len() == index.entry_seq().len(),
            forall|j: int|
                0 <= j < r.properties@.len() ==> (#[trigger] r.properties@[j]).0
                    == index.entry_seq()[j].0 && r.properties@[j].1.describes(
                    cis_set(index.entry_seq()[j].1),
                ),
    {
        let root = index.stats();
        let entries = index.inner();
        let mut properties: Vec<(String, crate::index::Stats)> = Vec::new();
        let n = entries.len();
        let mut i: usize = 0;
        while i < n
            invariant
                0 <= i <= n,
                n == entries@.len(),
                entries@ == index.entry_seq(),
                properties@.len() == i,
                forall|j: int|
                    0 <= j < i ==> (#[trigger] properties@[j]).0 == entries@[j].0
                        && properties@[j].1.describes(cis_set(entries@[j].1)),
            decreases n - i,
        {
            properties.push((entries[i].0.clone(), crate::index::Stats::of_bitmap(&entries[i].1)));
            i = i + 1;
        }
        StatsResult { root, properties }
    }
}

/// Set one bit of one property.
pub struct SetOp {
    pub property: String,
    pub bit: u32,
}

impl SetOp {
    /// Reports whether the bit was newly set.
    pub fn run(self, index: &mut Index) -> (r: bool)
        requires
            old(index).wf(),
        ensures
            final(index).wf(),
            final(index)@ == old(index)@.insert(
                self.property@,
                stored_or_empty(old(index)@, self.property@).insert(self.bit),
            ),
            r == !stored_or_empty(old(index)@, self.property@).contains(self.bit),
    {
        index.set(self.property.as_str(), self.bit)
    }
}

/// The fold that setting many properties' bits performs, pair by pair.
pub open spec fn set_many_fold(m: Map<Seq<char>, vstd::prelude::Set<u32>>, pairs: Seq<(String, Vec<u32>)>) -> Map<Seq<char>, vstd::prelude::Set<u32>>
    decreases pairs.len(),
{
    if pairs.len() == 0 {
        m
    } else {
        let prior = set_many_fold(m, pairs.drop_last());
        prior.insert(
            pairs.last().0@,
            stored_or_empty(prior, pairs.last().0@).union(pairs.last().1@.to_set()),
        )
    }
}

/// Set many bits across many properties.
pub struct SetMany {
    pub values: Vec<(String, Vec<u32>)>,
}

impl SetMany {
    pub fn run(self, index: &mut Index)
        requires
            old(index).wf(),
        ensures
            final(index).wf(),
            final(index)@ == set_many_fold(old(index)@, self.values@),
    {
        let n = self.values.len();
        let mut i: usize = 0;
        while i < n
            invariant
                0 <= i <= n,
                n == self.values@.len(),
                index.wf(),
                index@ == set_many_fold(old(index)@, self.values@.subrange(0, i as int)),
            decreases n - i,
        {
            index.set_many(self.values[i].0.as_str(), self.values[i].1.as_slice());
            proof {
                let pre = self.values@.subrange(0, i as int);
                let post = self.values@.subrange(0, i as int + 1);
                assert(post.drop_last() =~= pre);
                assert(post.last() == self.values@[i as int]);
            }
            i = i + 1;
        }
        proof {
            assert(self.values@.subrange(0, n as int) =~= self.values@);
        }
    }
}

/// Unset one bit of one property.
pub struct Unset {
    pub property: String,
    pub bit: u32,
}

impl Unset {
    /// Reports whether the bit was present.
    pub fn run(self, index: &mut Index) -> (r: bool)
        requires
            old(index).wf(),
        ensures
            final(index).wf(),
            final(index)@ == if old(index)@.dom().contains(self.property@) {
                old(index)@.insert(
                    self.property@,
                    old(index)@[self.property@].remove(self.bit),
                )
            } else {
                old(index)@
            },
            r == stored_or_empty(old(index)@, self.property@).contains(self.bit),
    {
        index.unset(self.property.as_str(), self.bit)
    }
}

/// The fold that unsetting many properties' bits performs, pair by pair.
pub open spec fn unset_many_fold(m: Map<Seq<char>, vstd::prelude::Set<u32>>, pairs: Seq<(String, Vec<u32>)>) -> Map<Seq<char>, vstd::prelude::Set<u32>>
    decreases pairs.len(),
{
    if pairs.len() == 0 {
        m
    } else {
        let prior = unset_many_fold(m, pairs.drop_last());
        if prior.dom().contains(pairs.last().0@) {
            prior.insert(
                pairs.last().0@,
                prior[pairs.last().0@].difference(pairs.last().1@.to_set()),
            )
        } else {
            prior
        }
    }
}

/// Unset many bits across many properties.
pub struct UnsetMany {
    pub values: Vec<(String, Vec<u32>)>,
}

impl UnsetMany {
    pub fn run(self, index: &mut Index)
        requires
            old(index).wf(),
        ensures
            final(index).wf(),
            final(index)@ == unset_many_fold(old(index)@, self.values@),
    {
        let n = self.values.len();
        let mut i: usize = 0;
        while i < n
            invariant
                0 <= i <= n,
                n == self.values@.len(),
                index.wf(),
                index@ == unset_many_fold(old(index)@, self.values@.subrange(0, i as int)),
            decreases n - i,
        {
            index.unset_many(self.values[i].0.as_str(), self.values[i].1.as_slice());
            proof {
                let pre = self.values@.subrange(0, i as int);
                let post = self.values@.subrange(0, i as int + 1);
                assert(post.drop_last() =~= pre);
                assert(post.last() == self.values@[i as int]);
            }
            i = i + 1;
        }
        proof {
            assert(self.values@.subrange(0, n as int) =~= self.values@);
        }
    }
}

/// List the properties that hold a bit.
pub struct GetBit {
    pub bit: u32,
}

impl GetBit {
    /// The names, in ascending order.
    pub fn run(self, index: &Index) -> (r: Vec<String>)
        requires
            index.wf(),
        ensures
            forall|a: int, b: int|
                0 <= a < b < r@.len() ==> lex_lt((#[trigger] r@[a])@, (#[trigger] r@[b])@),
            forall|j: int|
                0 <= j < r@.len() ==> index@.dom().contains((#[trigger] r@[j])@)
                    && index@[r@[j]@].contains(self.bit),
            forall|k: Seq<char>|
                index@.dom().contains(k) && index@[k].contains(self.bit) ==> exists|j: int|
                    0 <= j < r@.len() && (#[trigger] r@[j])@ == k,
    {
        index.get_properties_with_bit(self.bit)
    }
}

/// Set a bit on exactly the listed properties and unset it on every other.
pub struct SetBit {
    pub bit: u32,
    pub properties: Vec<String>,
}

impl SetBit {
    /// Reports whether any set changed.
    pub fn run(self, index: &mut Index) -> (r: bool)
        requires
            old(index).wf(),
        ensures
            final(index).wf(),
            final(index)@.dom() == old(index)@.dom(),
            forall|k: Seq<char>|
                old(index)@.dom().contains(k) ==> final(index)@[k] == (if name_listed(
                    self.properties@,
                    k,
                ) {
                    old(index)@[k].insert(self.bit)
                } else {
                    old(index)@[k].remove(self.bit)
                }),
            r == exists|k: Seq<char>| #[trigger] toggles(
                old(index)@,
                self.properties@,
                self.bit,
                k,
            ),
    {
        index.set_properties_with_bit(self.bit, self.properties.as_slice())
    }
}

/// Remove identifiers from every property.
pub struct DeleteBits {
    pub bits: Vec<u32>,
}

impl DeleteBits {
    pub fn run(self, index: &mut Index)
        requires
            old(index).wf(),
        ensures
            final(index).wf(),
            final(index)@.dom() == old(index)@.dom(),
            forall|k: Seq<char>|
                old(index)@.dom().contains(k) ==> final(index)@[k] == old(index)@[k].difference(
                    #[trigger] self.bits@.to_set(),
                ),
    {
        index.unset_all(self.bits.as_slice());
    }
}

} // verus!
