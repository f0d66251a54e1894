use vstd::prelude::*;
use vstd::string::*;

use std::collections::HashMap;

use crate::errors::As2orgError;
use crate::records::{
    all_asns_numeric, as_map_of_lines, as_view, asn_ok, asn_value_of, line_asn_ok, line_asn_text,
    line_asn_val, line_is_as, line_ok, lines_asns_ok, lines_records_ok, opt_view,
    org_map_of_lines, org_view, parse_record_line, rec_is_as, spec_as_map, spec_org_map, AsView,
    OrgView, Record,
};

verus! {

broadcast use vstd::std_specs::hash::group_hash_axioms;

/// The table holds each identifier text at most once.
pub open spec fn ids_distinct(ids: Seq<String>) -> bool {
    forall|i: int, j: int| 0 <= i < j < ids.len() ==> (#[trigger] ids[i])@ != (#[trigger] ids[j])@
}

/// The index at which the table holds the given identifier text, scanning
/// from the end.
pub open spec fn idx_of(ids: Seq<String>, oid: Seq<char>) -> Option<int>
    decreases ids.len(),
{
    if ids.len() == 0 {
        None
    } else if ids.last()@ == oid {
        Some(ids.len() - 1)
    } else {
        idx_of(ids.drop_last(), oid)
    }
}

proof fn lemma_idx_of_bounds(ids: Seq<String>, oid: Seq<char>)
    ensures
        match idx_of(ids, oid) {
            Some(j) => 0 <= j < ids.len() && ids[j]@ == oid,
            None => forall|k: int| 0 <= k < ids.len() ==> (#[trigger] ids[k])@ != oid,
        },
    decreases ids.len(),
{
    if ids.len() > 0 && ids.last()@ != oid {
        lemma_idx_of_bounds(ids.drop_last(), oid);
        match idx_of(ids.drop_last(), oid) {
            Some(j) => {
                assert(ids.drop_last()[j] == ids[j]);
            },
            None => {
                assert forall|k: int| 0 <= k < ids.len() implies (#[trigger] ids[k])@ != oid by {
                    if k < ids.len() - 1 {
                        assert(ids.drop_last()[k] == ids[k]);
                    }
                }
            },
        }
    }
}

proof fn lemma_idx_of_present(ids: Seq<String>, k: int)
    requires
        0 <= k < ids.len(),
        ids_distinct(ids),
    ensures
        idx_of(ids, ids[k]@) == Some(k),
    decreases ids.len(),
{
    if k < ids.len() - 1 {
        assert(ids.last()@ != ids[k]@);
        assert(ids_distinct(ids.drop_last()));
        lemma_idx_of_present(ids.drop_last(), k);
    }
}

/// Enriched information for one Autonomous System: its own record joined
/// with the record of the organization operating it.
#[derive(Debug, Clone)]
pub struct As2orgAsInfo {
    /// The AS number.
    pub asn: u32,
    /// The name provided for the individual AS number.
    pub name: String,
    /// The registration country code of the organization.
    pub country_code: String,
    /// The organization identifier, as the dataset writes it.
    pub org_id: String,
    /// The organization's name.
    pub org_name: String,
    /// The registry database that contained the organization's entry.
    pub source: String,
}

/// The stored form of an AS record: the organization identifier is held as
/// an index into the interning table.
pub(crate) struct AsEntry {
    pub(crate) name: String,
    pub(crate) org: usize,
    pub(crate) opaque_id: Option<String>,
    pub(crate) changed: Option<String>,
    pub(crate) source: String,
    pub(crate) data_type: String,
}

/// The stored form of an organization record.
pub(crate) struct OrgEntry {
    pub(crate) name: String,
    pub(crate) country: String,
    pub(crate) changed: Option<String>,
    pub(crate) source: String,
    pub(crate) data_type: String,
}

/// The in-memory index over one loaded dataset snapshot: by AS number, by
/// organization, and the two derived directions between them.
///
/// Organization identifiers are interned: `org_ids` assigns each distinct
/// identifier text one index, and every map speaks of identifiers through
/// those indices.
pub struct As2org {
    org_ids: Vec<String>,
    as_map: HashMap<u32, AsEntry>,
    asn_order: Vec<u32>,
    org_map: HashMap<usize, OrgEntry>,
    as_to_org: HashMap<u32, usize>,
    org_to_as: HashMap<usize, Vec<u32>>,
}

impl As2org {
    /// The interning table holds each identifier text at most once.
    pub(crate) closed spec fn interner_distinct(self) -> bool {
        ids_distinct(self.org_ids@)
    }

    /// Every stored record points into the interning table, the derived
    /// maps agree with the stored records in both directions, and the
    /// first-seen key list names exactly the stored AS numbers.
    pub(crate) closed spec fn wf_inner(self) -> bool {
        &&& self.interner_distinct()
        &&& forall|a: u32|
            self.as_map@.contains_key(a) ==> (#[trigger] self.as_map@[a]).org
                < self.org_ids@.len()
        &&& forall|o: usize| #[trigger] self.org_map@.contains_key(o) ==> o < self.org_ids@.len()
        &&& self.asn_order@.no_duplicates()
        &&& forall|a: u32| #[trigger]
            self.asn_order@.contains(a) <==> self.as_map@.contains_key(a)
        &&& forall|a: u32| #[trigger]
            self.as_to_org@.contains_key(a) <==> self.as_map@.contains_key(a)
        &&& forall|a: u32|
            self.as_to_org@.contains_key(a) ==> #[trigger] self.as_to_org@[a]
                == self.as_map@[a].org
        &&& forall|o: usize| #[trigger]
            self.org_to_as@.contains_key(o) ==> exists|a: u32|
                self.as_map@.contains_key(a) && (#[trigger] self.as_map@[a]).org == o
        &&& forall|o: usize, k: int|
            self.org_to_as@.contains_key(o) && 0 <= k < self.org_to_as@[o]@.len()
                ==> self.as_map@.contains_key(#[trigger] self.org_to_as@[o]@[k])
                && self.as_map@[self.org_to_as@[o]@[k]].org == o
        &&& forall|a: u32|
            self.as_map@.contains_key(a) ==> self.org_to_as@.contains_key(
                (#[trigger] self.as_map@[a]).org,
            ) && self.org_to_as@[self.as_map@[a].org]@.contains(a)
        &&& forall|o: usize|
            self.org_to_as@.contains_key(o) ==> (#[trigger] self.org_to_as@[o])@.no_duplicates()
        &&& forall|o: usize|
            self.org_to_as@.contains_key(o) ==> (#[trigger] self.org_to_as@[o])@ == org_members(
                self.asn_order@,
                self.as_map@,
                o,
            )
    }

    /// The index is well formed.
    pub closed spec fn wf(self) -> bool {
        self.wf_inner()
    }

    /// The map from AS number to AS record content that the index holds.
    pub closed spec fn as_model(self) -> Map<u32, AsView> {
        as_model_of(self.as_map@, self.org_ids@)
    }

    /// The map from organization identifier to organization record content
    /// that the index holds.
    pub closed spec fn org_model(self) -> Map<Seq<char>, OrgView> {
        org_model_of(self.org_map@, self.org_ids@)
    }

    /// The AS number is present in the index.
    pub closed spec fn has_asn(self, a: u32) -> bool {
        self.as_map@.contains_key(a)
    }

    /// The identifier of the organization the AS is mapped to.
    pub closed spec fn org_id_of(self, a: u32) -> Seq<char>
        recommends
            self.has_asn(a),
    {
        self.org_ids@[self.as_map@[a].org as int]@
    }

    /// The AS is present and its organization identifier has an
    /// organization record of its own.
    pub closed spec fn resolves(self, a: u32) -> bool {
        self.as_map@.contains_key(a) && self.org_map@.contains_key(self.as_map@[a].org)
    }

    /// The display name stored for the AS.
    pub closed spec fn as_name_of(self, a: u32) -> Seq<char> {
        self.as_map@[a].name@
    }

    /// The name of the AS's organization.
    pub closed spec fn org_name_of(self, a: u32) -> Seq<char> {
        self.org_map@[self.as_map@[a].org].name@
    }

    /// The country code of the AS's organization.
    pub closed spec fn country_of(self, a: u32) -> Seq<char> {
        self.org_map@[self.as_map@[a].org].country@
    }

    /// The registry source of the AS's organization record.
    pub closed spec fn org_source_of(self, a: u32) -> Seq<char> {
        self.org_map@[self.as_map@[a].org].source@
    }

    /// The AS numbers mapped to the same organization as the given AS, in
    /// first-seen order.
    pub closed spec fn siblings_of(self, a: u32) -> Seq<u32> {
        self.org_to_as@[self.as_map@[a].org]@
    }

    /// The stored AS numbers, in the order they were first seen.
    pub closed spec fn first_seen_asns(self) -> Seq<u32> {
        self.asn_order@
    }

    /// The members of `order` operated by the same organization as `a`,
    /// kept in order.
    pub open spec fn same_org_filter(self, a: u32, order: Seq<u32>) -> Seq<u32> {
        order.filter(|b: u32| self.same_org(a, b))
    }

    /// Both AS numbers are present and mapped to one organization.
    pub open spec fn same_org(self, a: u32, b: u32) -> bool {
        self.has_asn(a) && self.has_asn(b) && self.org_id_of(a) == self.org_id_of(b)
    }

    /// The enrichment record carries exactly the stored values for the AS.
    pub open spec fn info_matches(self, a: u32, info: As2orgAsInfo) -> bool {
        &&& info.asn == a
        &&& info.name@ == self.as_name_of(a)
        &&& info.org_id@ == self.org_id_of(a)
        &&& info.org_name@ == self.org_name_of(a)
        &&& info.country_code@ == self.country_of(a)
        &&& info.source@ == self.org_source_of(a)
    }

    /// What an enrichment lookup returns: nothing exactly when the AS is
    /// absent or its organization identifier resolves to no organization
    /// record, and otherwise the joined record.
    pub open spec fn info_result_matches(self, a: u32, r: Option<As2orgAsInfo>) -> bool {
        match r {
            None => !self.resolves(a),
            Some(info) => self.resolves(a) && self.info_matches(a, info),
        }
    }

    /// Enriched information for the given AS number: its record joined
    /// with its organization's record. Nothing is returned when the AS is
    /// absent, and also when its organization identifier has no
    /// organization record of its own in the loaded dataset.
    pub fn get_as_info(&self, asn: u32) -> (r: Option<As2orgAsInfo>)
        requires
            self.wf(),
        ensures
            r is Some <==> self.resolves(asn),
            self.info_result_matches(asn, r),
    {
        let e = match self.as_map.get(&asn) {
            Some(e) => e,
            None => {
                return None;
            },
        };
        let org = e.org;
        let oe = match self.org_map.get(&org) {
            Some(o) => o,
            None => {
                return None;
            },
        };
        let org_id = self.org_ids[org].clone();
        Some(
            As2orgAsInfo {
                asn,
                name: e.name.clone(),
                country_code: oe.country.clone(),
                org_id,
                org_name: oe.name.clone(),
                source: oe.source.clone(),
            },
        )
    }

    /// Are the two AS numbers operated by one organization? False whenever
    /// either is absent from the index, also when the two are equal.
    pub fn are_siblings(&self, asn1: u32, asn2: u32) -> (r: bool)
        requires
            self.wf(),
        ensures
            r == self.same_org(asn1, asn2),
    {
        let o1 = match self.as_to_org.get(&asn1) {
            Some(o) => *o,
            None => {
                return false;
            },
        };
        let o2 = match self.as_to_org.get(&asn2) {
            Some(o) => *o,
            None => {
                return false;
            },
        };
        proof {
            if o1 != o2 {
                if o1 < o2 {
                    assert(self.org_ids@[o1 as int]@ != self.org_ids@[o2 as int]@);
                } else {
                    assert(self.org_ids@[o2 as int]@ != self.org_ids@[o1 as int]@);
                }
            }
        }
        o1 == o2
    }

    /// All ASes of the organization operating the given AS, each joined
    /// with that organization's record, in first-seen order; the given AS
    /// is among them. Nothing is returned when the AS is absent, and also
    /// when its organization identifier has no organization record.
    pub fn get_siblings(&self, asn: u32) -> (r: Option<Vec<As2orgAsInfo>>)
        requires
            self.wf(),
        ensures
            r is Some <==> self.resolves(asn),
            r matches Some(v) ==> v@.len() == self.siblings_of(asn).len(),
            r matches Some(v) ==> forall|i: int|
                0 <= i < v@.len() ==> self.info_matches(self.siblings_of(asn)[i], #[trigger] v@[i]),
            r matches Some(v) ==> forall|i: int|
                0 <= i < v@.len() ==> (#[trigger] v@[i]).org_id@ == self.org_id_of(asn),
            r matches Some(v) ==> exists|i: int| 0 <= i < v@.len() && (#[trigger] v@[i]).asn == asn,
    {
        let org = match self.as_to_org.get(&asn) {
            Some(o) => *o,
            None => {
                return None;
            },
        };
        if !self.org_map.contains_key(&org) {
            return None;
        }
        let bucket = match self.org_to_as.get(&org) {
            Some(b) => b,
            None => {
                proof {
                    assert(false);
                }
                return None;
            },
        };
        let n = bucket.len();
        let mut out: Vec<As2orgAsInfo> = Vec::new();
        let mut i: usize = 0;
        while i < n
            invariant
                self.wf(),
                self.as_map@.contains_key(asn),
                org == self.as_map@[asn].org,
                self.org_map@.contains_key(org),
                self.org_to_as@.contains_key(org),
                bucket@ == self.org_to_as@[org]@,
                n == bucket@.len(),
                i <= n,
                out@.len() == i,
                forall|k: int|
                    0 <= k < i ==> self.info_matches(bucket@[k], #[trigger] out@[k]),
            decreases n - i,
        {
            let s = bucket[i];
            proof {
                assert(self.as_map@.contains_key(s) && self.as_map@[s].org == org);
            }
            let info = match self.get_as_info(s) {
                Some(x) => x,
                None => {
                    proof {
                        assert(false);
                    }
                    return None;
                },
            };
            out.push(info);
            i += 1;
        }
        proof {
            assert(self.org_to_as@[org]@.contains(asn));
            let w = choose|k: int|
                0 <= k < self.org_to_as@[org]@.len() && self.org_to_as@[org]@[k] == asn;
            assert(out@[w].asn == asn);
            assert forall|k: int| 0 <= k < out@.len() implies (#[trigger] out@[k]).org_id@
                == self.org_id_of(asn) by {
                assert(self.info_matches(bucket@[k], out@[k]));
                assert(self.as_map@[bucket@[k]].org == org);
            }
        }
        Some(out)
    }
}

/// The stored AS numbers of one organization index, in the order the
/// numbers were first seen.
pub(crate) open spec fn org_members(order: Seq<u32>, m: Map<u32, AsEntry>, o: usize) -> Seq<u32> {
    order.filter(|b: u32| m.contains_key(b) && m[b].org == o)
}

proof fn lemma_org_members_empty(order: Seq<u32>, m: Map<u32, AsEntry>, o: usize)
    requires
        forall|k: int|
            0 <= k < order.len() ==> !(m.contains_key(#[trigger] order[k]) && m[order[k]].org
                == o),
    ensures
        org_members(order, m, o) =~= Seq::<u32>::empty(),
    decreases order.len(),
{
    reveal(Seq::filter);
    if order.len() > 0 {
        assert forall|k: int|
            0 <= k < order.drop_last().len() implies !(m.contains_key(
            #[trigger] order.drop_last()[k],
        ) && m[order.drop_last()[k]].org == o) by {
            assert(order.drop_last()[k] == order[k]);
        }
        lemma_org_members_empty(order.drop_last(), m, o);
    }
}

/// The content an AS entry stands for, its organization index read back
/// through the interning table.
pub(crate) open spec fn as_entry_view(e: AsEntry, ids: Seq<String>) -> AsView {
    AsView {
        name: e.name@,
        org_id: ids[e.org as int]@,
        opaque_id: opt_view(e.opaque_id),
        changed: opt_view(e.changed),
        source: e.source@,
        data_type: e.data_type@,
    }
}

/// The content an organization entry stands for.
pub(crate) open spec fn org_entry_view(e: OrgEntry) -> OrgView {
    OrgView {
        name: e.name@,
        country: e.country@,
        changed: opt_view(e.changed),
        source: e.source@,
        data_type: e.data_type@,
    }
}

/// The AS model a stored map and interning table stand for.
pub(crate) open spec fn as_model_of(m: Map<u32, AsEntry>, ids: Seq<String>) -> Map<u32, AsView> {
    Map::new(|a: u32| m.contains_key(a), |a: u32| as_entry_view(m[a], ids))
}

/// The organization model a stored map and interning table stand for.
pub(crate) open spec fn org_model_of(m: Map<usize, OrgEntry>, ids: Seq<String>) -> Map<
    Seq<char>,
    OrgView,
> {
    Map::new(
        |oid: Seq<char>|
            match idx_of(ids, oid) {
                Some(j) => m.contains_key(j as usize),
                None => false,
            },
        |oid: Seq<char>| org_entry_view(m[(idx_of(ids, oid)->Some_0) as usize]),
    )
}

/// How the lookup notions relate to the two record models: presence is
/// presence in the AS model, the organization identifier is the one the AS
/// model carries, and an AS resolves exactly when that identifier is a key
/// of the organization model.
pub proof fn lemma_model_accessors(db: As2org, a: u32)
    requires
        db.wf(),
    ensures
        db.has_asn(a) <==> db.as_model().contains_key(a),
        db.has_asn(a) ==> db.org_id_of(a) == db.as_model()[a].org_id,
        db.has_asn(a) ==> db.as_name_of(a) == db.as_model()[a].name,
        db.resolves(a) <==> db.has_asn(a) && db.org_model().contains_key(db.org_id_of(a)),
        db.resolves(a) ==> db.org_name_of(a) == db.org_model()[db.org_id_of(a)].name,
        db.resolves(a) ==> db.country_of(a) == db.org_model()[db.org_id_of(a)].country,
        db.resolves(a) ==> db.org_source_of(a) == db.org_model()[db.org_id_of(a)].source,
{
    if db.has_asn(a) {
        let e = db.as_map@[a];
        lemma_idx_of_present(db.org_ids@, e.org as int);
    }
}


proof fn lemma_as_model_ids_extend(m: Map<u32, AsEntry>, ids0: Seq<String>, ids1: Seq<String>)
    requires
        ids0.len() <= ids1.len(),
        forall|k: int| 0 <= k < ids0.len() ==> ids1[k] == ids0[k],
        forall|a: u32| m.contains_key(a) ==> (#[trigger] m[a]).org < ids0.len(),
    ensures
        as_model_of(m, ids1) =~= as_model_of(m, ids0),
{
    assert forall|a: u32| #[trigger] m.contains_key(a) implies as_entry_view(m[a], ids1)
        == as_entry_view(m[a], ids0) by {
        assert(ids1[m[a].org as int] == ids0[m[a].org as int]);
    }
}

proof fn lemma_org_model_ids_same(m: Map<usize, OrgEntry>, ids0: Seq<String>, ids1: Seq<String>)
    requires
        ids1 == ids0,
    ensures
        org_model_of(m, ids1) =~= org_model_of(m, ids0),
{
}

proof fn lemma_org_model_ids_push(m: Map<usize, OrgEntry>, ids0: Seq<String>, x: String)
    requires
        ids0.len() < usize::MAX,
        forall|k: int| 0 <= k < ids0.len() ==> (#[trigger] ids0[k])@ != x@,
        forall|o: usize| #[trigger] m.contains_key(o) ==> o < ids0.len(),
    ensures
        org_model_of(m, ids0.push(x)) =~= org_model_of(m, ids0),
{
    let ids1 = ids0.push(x);
    assert(ids1.drop_last() =~= ids0);
    assert forall|oid: Seq<char>| true implies #[trigger] org_model_of(m, ids1).contains_key(oid)
        == org_model_of(m, ids0).contains_key(oid) && (org_model_of(m, ids0).contains_key(oid)
        ==> org_model_of(m, ids1)[oid] == org_model_of(m, ids0)[oid]) by {
        if ids1.last()@ == oid {
            assert(idx_of(ids1, oid) == Some(ids0.len() as int));
            assert(!m.contains_key(ids0.len() as usize));
            lemma_idx_of_bounds(ids0, oid);
            match idx_of(ids0, oid) {
                Some(j) => {
                    assert(ids0[j]@ == x@);
                    assert(false);
                },
                None => {},
            }
        } else {
            assert(idx_of(ids1, oid) == idx_of(ids0, oid));
        }
    }
}

proof fn lemma_as_model_insert(
    m: Map<u32, AsEntry>,
    ids: Seq<String>,
    key: u32,
    e: AsEntry,
    v: AsView,
)
    requires
        as_entry_view(e, ids) == v,
    ensures
        as_model_of(m.insert(key, e), ids) =~= as_model_of(m, ids).insert(key, v),
{
}

proof fn lemma_org_model_insert(
    m: Map<usize, OrgEntry>,
    ids: Seq<String>,
    key: usize,
    e: OrgEntry,
    oid: Seq<char>,
)
    requires
        ids.len() <= usize::MAX,
        ids_distinct(ids),
        key < ids.len(),
        ids[key as int]@ == oid,
        forall|o: usize| #[trigger] m.contains_key(o) ==> o < ids.len(),
    ensures
        org_model_of(m.insert(key, e), ids) =~= org_model_of(m, ids).insert(
            oid,
            org_entry_view(e),
        ),
{
    lemma_idx_of_present(ids, key as int);
    assert forall|q: Seq<char>| true implies #[trigger] org_model_of(
        m.insert(key, e),
        ids,
    ).contains_key(q) == org_model_of(m, ids).insert(oid, org_entry_view(e)).contains_key(q) && (
    org_model_of(m.insert(key, e), ids).contains_key(q) ==> org_model_of(m.insert(key, e), ids)[q]
        == org_model_of(m, ids).insert(oid, org_entry_view(e))[q]) by {
        if q == oid {
            assert(idx_of(ids, q) == Some(key as int));
        } else {
            lemma_idx_of_bounds(ids, q);
            match idx_of(ids, q) {
                Some(j) => {
                    assert(ids[j]@ == q && q != oid);
                    assert(j != key as int);
                },
                None => {},
            }
        }
    }
}

/// Finds the identifier's index in the table, appending it when it is new.
fn intern(ids: &mut Vec<String>, s: &String) -> (idx: usize)
    requires
        ids_distinct(old(ids)@),
    ensures
        ids_distinct(final(ids)@),
        idx < final(ids)@.len(),
        final(ids)@[idx as int]@ == s@,
        old(ids)@.len() <= final(ids)@.len() <= old(ids)@.len() + 1,
        forall|k: int| 0 <= k < old(ids)@.len() ==> final(ids)@[k] == old(ids)@[k],
        final(ids)@.len() == old(ids)@.len() ==> final(ids)@ == old(ids)@,
        final(ids)@.len() > old(ids)@.len() ==> idx == old(ids)@.len() && forall|k: int|
            0 <= k < old(ids)@.len() ==> (#[trigger] final(ids)@[k])@ != s@,
{
    let ghost ids0 = ids@;
    let n = ids.len();
    let mut k: usize = 0;
    while k < n
        invariant
            ids0 == old(ids)@,
            ids_distinct(ids0),
            ids@ == ids0,
            n == ids@.len(),
            k <= n,
            forall|j: int| 0 <= j < k ==> (#[trigger] ids@[j])@ != s@,
        decreases n - k,
    {
        if s.eq(&ids[k]) {
            return k;
        }
        k += 1;
    }
    ids.push(s.clone());
    proof {
        assert(ids@ =~= ids0.push(ids@.last()));
        assert forall|i: int, j: int| 0 <= i < j < ids@.len() implies (#[trigger] ids@[i])@ != (
        #[trigger] ids@[j])@ by {
            if j == ids@.len() - 1 {
                assert(ids@[i]@ != s@);
            }
        }
    }
    n
}

/// A copy of an optional text, equal to it.
fn clone_opt(o: &Option<String>) -> (r: Option<String>)
    ensures
        r == *o,
{
    match o {
        None => None,
        Some(s) => Some(s.clone()),
    }
}

impl As2org {
    /// Builds the index from a parsed record sequence. Records are
    /// partitioned by kind, the later record replacing the earlier on a
    /// repeated AS number or organization identifier; the two derived
    /// directions are then filled from the AS side in first-seen key
    /// order. Fails exactly when some AS record's number text is not a
    /// decimal numeral fitting 32 bits, naming that text.
    pub fn from_records(records: &Vec<Record>) -> (r: Result<As2org, As2orgError>)
        ensures
            r is Ok <==> all_asns_numeric(records@),
            r matches Ok(db) ==> db.wf(),
            r matches Ok(db) ==> db.as_model() == spec_as_map(records@),
            r matches Ok(db) ==> db.org_model() == spec_org_map(records@),
            r matches Err(e) ==> e matches As2orgError::InvalidAsn(t) && exists|i: int|
                0 <= i < records@.len() && ((#[trigger] records@[i]) matches Record::As(a)
                    && a.asn@ == t@ && !asn_ok(a)),
    {
        let ghost recs = records@;
        let mut org_ids: Vec<String> = Vec::new();
        let mut as_map: HashMap<u32, AsEntry> = HashMap::new();
        let mut asn_order: Vec<u32> = Vec::new();
        let mut org_map: HashMap<usize, OrgEntry> = HashMap::new();
        let nrec = records.len();
        let mut i: usize = 0;
        proof {
            assert(recs.take(0) =~= Seq::<Record>::empty());
            assert(as_model_of(as_map@, org_ids@) =~= spec_as_map(recs.take(0)));
            assert(org_model_of(org_map@, org_ids@) =~= spec_org_map(recs.take(0)));
        }
        while i < nrec
            invariant
                nrec == recs.len(),
                recs == records@,
                i <= nrec,
                ids_distinct(org_ids@),
                forall|a: u32|
                    as_map@.contains_key(a) ==> (#[trigger] as_map@[a]).org < org_ids@.len(),
                forall|o: usize| #[trigger] org_map@.contains_key(o) ==> o < org_ids@.len(),
                asn_order@.no_duplicates(),
                forall|a: u32| #[trigger] asn_order@.contains(a) <==> as_map@.contains_key(a),
                as_model_of(as_map@, org_ids@) == spec_as_map(recs.take(i as int)),
                org_model_of(org_map@, org_ids@) == spec_org_map(recs.take(i as int)),
                all_asns_numeric(recs.take(i as int)),
            decreases nrec - i,
        {
            proof {
                assert(recs.take(i + 1).drop_last() =~= recs.take(i as int));
                assert(recs.take(i + 1).last() == recs[i as int]);
            }
            match &records[i] {
                Record::As(a) => {
                    let ghost a0 = *a;
                    let asn_chars = crate::text::str_to_chars(a.asn.as_str());
                    match crate::text::parse_u32_numeral(&asn_chars) {
                        None => {
                            proof {
                                assert(recs[i as int] matches Record::As(x) && x.asn@ == a0.asn@
                                    && !asn_ok(x));
                                assert(!all_asns_numeric(recs));
                            }
                            return Err(As2orgError::InvalidAsn(a.asn.clone()));
                        },
                        Some(num) => {
                            let ghost ids0 = org_ids@;
                            let ghost am0 = as_map@;
                            let ghost om0 = org_map@;
                            let org = intern(&mut org_ids, &a.org_id);
                            let _bound = org_ids.len();
                            let entry = AsEntry {
                                name: a.name.clone(),
                                org,
                                opaque_id: clone_opt(&a.opaque_id),
                                changed: clone_opt(&a.changed),
                                source: a.source.clone(),
                                data_type: a.data_type.clone(),
                            };
                            let ghost order0 = asn_order@;
                            if !as_map.contains_key(&num) {
                                asn_order.push(num);
                            }
                            as_map.insert(num, entry);
                            proof {
                                crate::text::lemma_dec_val_nonneg(
                                    crate::text::numeral_digits(a0.asn@),
                                );
                                assert(num == asn_value_of(a0));
                                lemma_as_model_ids_extend(am0, ids0, org_ids@);
                                if org_ids@.len() > ids0.len() {
                                    assert(org_ids@ =~= ids0.push(org_ids@.last()));
                                    lemma_org_model_ids_push(om0, ids0, org_ids@.last());
                                } else {
                                    lemma_org_model_ids_same(om0, ids0, org_ids@);
                                }
                                assert(as_entry_view(entry, org_ids@) == as_view(a0));
                                lemma_as_model_insert(am0, org_ids@, num, entry, as_view(a0));
                                assert(as_model_of(as_map@, org_ids@) =~= spec_as_map(
                                    recs.take(i + 1),
                                ));
                                assert(org_model_of(org_map@, org_ids@) =~= spec_org_map(
                                    recs.take(i + 1),
                                ));
                                let pushed = order0.len() < asn_order@.len();
                                assert forall|x: u32| #[trigger]
                                    asn_order@.contains(x) == as_map@.contains_key(x) by {
                                    if x == num {
                                        if pushed {
                                            assert(asn_order@[asn_order@.len() - 1] == num);
                                            assert(asn_order@.contains(num));
                                        } else {
                                            assert(am0.contains_key(num));
                                            assert(order0.contains(num));
                                        }
                                        assert(as_map@.contains_key(num));
                                    } else {
                                        assert(as_map@.contains_key(x) == am0.contains_key(x));
                                        if pushed {
                                            if asn_order@.contains(x) {
                                                let w = choose|w: int|
                                                    0 <= w < asn_order@.len() && asn_order@[w]
                                                        == x;
                                                assert(w < order0.len());
                                                assert(order0[w] == x);
                                                assert(order0.contains(x));
                                            }
                                            if order0.contains(x) {
                                                let w = choose|w: int|
                                                    0 <= w < order0.len() && order0[w] == x;
                                                assert(asn_order@[w] == x);
                                                assert(asn_order@.contains(x));
                                            }
                                        }
                                    }
                                }
                                assert(asn_order@.no_duplicates()) by {
                                    if order0.len() < asn_order@.len() {
                                        assert(!am0.contains_key(num));
                                        assert(!order0.contains(num));
                                        assert forall|x: int, y: int|
                                            0 <= x < y < asn_order@.len() implies asn_order@[x]
                                            != asn_order@[y] by {
                                            if y < order0.len() {
                                                assert(order0[x] == asn_order@[x]);
                                                assert(order0[y] == asn_order@[y]);
                                            } else {
                                                assert(asn_order@[y] == num);
                                                if asn_order@[x] == num {
                                                    assert(order0[x] == num);
                                                    assert(order0.contains(num));
                                                }
                                            }
                                        }
                                    }
                                }
                                assert(all_asns_numeric(recs.take(i + 1))) by {
                                    assert forall|k: int|
                                        0 <= k < recs.take(i + 1).len() implies match
                                        #[trigger] recs.take(i + 1)[k] {
                                        Record::As(x) => asn_ok(x),
                                        Record::Org(_) => true,
                                    } by {
                                        if k < i {
                                            assert(recs.take(i + 1)[k] == recs.take(i as int)[k]);
                                        }
                                    }
                                }
                            }
                        },
                    }
                },
                Record::Org(o) => {
                    let ghost o0 = *o;
                    let ghost ids0 = org_ids@;
                    let ghost am0 = as_map@;
                    let ghost om0 = org_map@;
                    let org = intern(&mut org_ids, &o.org_id);
                    let _bound = org_ids.len();
                    let entry = OrgEntry {
                        name: o.name.clone(),
                        country: o.country.clone(),
                        changed: clone_opt(&o.changed),
                        source: o.source.clone(),
                        data_type: o.data_type.clone(),
                    };
                    org_map.insert(org, entry);
                    proof {
                        lemma_as_model_ids_extend(am0, ids0, org_ids@);
                        if org_ids@.len() > ids0.len() {
                            assert(org_ids@ =~= ids0.push(org_ids@.last()));
                            lemma_org_model_ids_push(om0, ids0, org_ids@.last());
                        } else {
                            lemma_org_model_ids_same(om0, ids0, org_ids@);
                        }
                        assert(org_entry_view(entry) == org_view(o0));
                        lemma_org_model_insert(om0, org_ids@, org, entry, o0.org_id@);
                        assert(as_model_of(as_map@, org_ids@) =~= spec_as_map(recs.take(i + 1)));
                        assert(org_model_of(org_map@, org_ids@) =~= spec_org_map(
                            recs.take(i + 1),
                        ));
                        assert(all_asns_numeric(recs.take(i + 1))) by {
                            assert forall|k: int|
                                0 <= k < recs.take(i + 1).len() implies match #[trigger] recs.take(
                                i + 1,
                            )[k] {
                                Record::As(x) => asn_ok(x),
                                Record::Org(_) => true,
                            } by {
                                if k < i {
                                    assert(recs.take(i + 1)[k] == recs.take(i as int)[k]);
                                }
                            }
                        }
                    }
                },
            }
            i += 1;
        }
        proof {
            assert(recs.take(nrec as int) =~= recs);
        }
        let mut as_to_org: HashMap<u32, usize> = HashMap::new();
        let mut org_to_as: HashMap<usize, Vec<u32>> = HashMap::new();
        let n = asn_order.len();
        let mut j: usize = 0;
        while j < n
            invariant
                n == asn_order@.len(),
                j <= n,
                asn_order@.no_duplicates(),
                forall|a: u32| #[trigger] asn_order@.contains(a) <==> as_map@.contains_key(a),
                forall|a: u32| #[trigger]
                    as_to_org@.contains_key(a) <==> asn_order@.take(j as int).contains(a),
                forall|a: u32|
                    as_to_org@.contains_key(a) ==> #[trigger] as_to_org@[a] == as_map@[a].org,
                forall|o: usize| #[trigger]
                    org_to_as@.contains_key(o) ==> exists|a: u32|
                        asn_order@.take(j as int).contains(a) && as_map@.contains_key(a) && (
                        #[trigger] as_map@[a]).org == o,
                forall|o: usize, k: int|
                    org_to_as@.contains_key(o) && 0 <= k < org_to_as@[o]@.len()
                        ==> asn_order@.take(j as int).contains(#[trigger] org_to_as@[o]@[k])
                        && as_map@.contains_key(org_to_as@[o]@[k]) && as_map@[org_to_as@[o]@[k]].org
                        == o,
                forall|a: u32| #[trigger]
                    asn_order@.take(j as int).contains(a) ==> as_map@.contains_key(a)
                        && org_to_as@.contains_key(as_map@[a].org)
                        && org_to_as@[as_map@[a].org]@.contains(a),
                forall|o: usize|
                    org_to_as@.contains_key(o) ==> (#[trigger] org_to_as@[o])@.no_duplicates(),
                forall|o: usize|
                    org_to_as@.contains_key(o) ==> (#[trigger] org_to_as@[o])@ == org_members(
                        asn_order@.take(j as int),
                        as_map@,
                        o,
                    ),
            decreases n - j,
        {
            let asn = asn_order[j];
            let ghost prev = asn_order@.take(j as int);
            let ghost cur = asn_order@.take(j as int + 1);
            proof {
                assert(asn_order@.contains(asn));
                assert(cur =~= prev.push(asn));
                assert(!prev.contains(asn)) by {
                    if prev.contains(asn) {
                        let w = choose|w: int| 0 <= w < prev.len() && prev[w] == asn;
                        assert(asn_order@[w] == asn_order@[j as int]);
                    }
                }
                assert forall|x: u32| #[trigger] cur.contains(x) implies prev.contains(x) || x
                    == asn by {
                    let w = choose|w: int| 0 <= w < cur.len() && cur[w] == x;
                    if w < j {
                        assert(prev[w] == x);
                    }
                }
                assert forall|x: u32| prev.contains(x) implies #[trigger] cur.contains(x) by {
                    let w = choose|w: int| 0 <= w < prev.len() && prev[w] == x;
                    assert(cur[w] == x);
                }
                assert(cur.contains(asn)) by {
                    assert(cur[j as int] == asn);
                }
            }
            let e_org = match as_map.get(&asn) {
                Some(e) => e.org,
                None => {
                    proof {
                        assert(false);
                    }
                    0
                },
            };
            as_to_org.insert(asn, e_org);
            let ghost ota0 = org_to_as@;
            match org_to_as.remove(&e_org) {
                Some(b) => {
                    let mut b = b;
                    proof {
                        assert(!b@.contains(asn)) by {
                            if b@.contains(asn) {
                                let w = choose|w: int| 0 <= w < b@.len() && b@[w] == asn;
                                assert(prev.contains(ota0[e_org]@[w]));
                            }
                        }
                    }
                    b.push(asn);
                    org_to_as.insert(e_org, b);
                },
                None => {
                    let b = vec![asn];
                    org_to_as.insert(e_org, b);
                },
            }
            proof {
                assert forall|o: usize| #[trigger] org_to_as@.contains_key(o) implies (
                org_to_as@[o])@ == org_members(cur, as_map@, o) by {
                    reveal(Seq::filter);
                    assert(cur.drop_last() =~= prev);
                    assert(cur.last() == asn);
                    if o == e_org {
                        match ota0.contains_key(e_org) {
                            true => {
                                assert((org_to_as@[o])@ == ota0[e_org]@.push(asn));
                                assert(ota0[e_org]@ == org_members(prev, as_map@, o));
                            },
                            false => {
                                assert forall|k: int|
                                    0 <= k < prev.len() implies !(as_map@.contains_key(
                                    #[trigger] prev[k],
                                ) && as_map@[prev[k]].org == o) by {
                                    assert(prev.contains(prev[k]));
                                }
                                lemma_org_members_empty(prev, as_map@, o);
                                assert((org_to_as@[o])@ =~= Seq::<u32>::empty().push(asn));
                            },
                        }
                        assert(org_members(cur, as_map@, o) == org_members(
                            prev,
                            as_map@,
                            o,
                        ).push(asn));
                    } else {
                        assert(as_map@[asn].org != o);
                        assert(org_members(cur, as_map@, o) == org_members(prev, as_map@, o));
                        assert((org_to_as@[o])@ == ota0[o]@);
                    }
                }
                assert forall|o: usize| #[trigger] org_to_as@.contains_key(o) implies exists|
                    a: u32,
                |
                    cur.contains(a) && as_map@.contains_key(a) && (#[trigger] as_map@[a]).org
                        == o by {
                    if o == e_org {
                        assert(cur.contains(asn) && as_map@.contains_key(asn)
                            && as_map@[asn].org == o);
                    } else {
                        let a = choose|a: u32|
                            prev.contains(a) && as_map@.contains_key(a) && (
                            #[trigger] as_map@[a]).org == o;
                        assert(cur.contains(a));
                    }
                }
                assert forall|a: u32| #[trigger] cur.contains(a) implies as_map@.contains_key(a)
                    && org_to_as@.contains_key(as_map@[a].org)
                    && org_to_as@[as_map@[a].org]@.contains(a) by {
                    if a == asn {
                        let bb = org_to_as@[e_org]@;
                        assert(bb[bb.len() - 1] == asn);
                        assert(bb.contains(asn));
                    } else {
                        assert(prev.contains(a));
                        if as_map@[a].org == e_org {
                            let w = choose|w: int|
                                0 <= w < ota0[e_org]@.len() && ota0[e_org]@[w] == a;
                            assert(org_to_as@[e_org]@[w] == a);
                            assert(org_to_as@[e_org]@.contains(a));
                        }
                    }
                }
            }
            j += 1;
        }
        proof {
            assert(asn_order@.take(n as int) =~= asn_order@);
        }
        let db = As2org { org_ids, as_map, asn_order, org_map, as_to_org, org_to_as };
        proof {
            assert forall|a: u32|
                db.as_map@.contains_key(a) implies db.org_to_as@.contains_key(
                (#[trigger] db.as_map@[a]).org,
            ) && db.org_to_as@[db.as_map@[a].org]@.contains(a) by {
                assert(asn_order@.contains(a));
                assert(asn_order@.take(n as int).contains(a));
            }
            assert(db.wf());
        }
        Ok(db)
    }
}


impl As2org {
    /// Builds the index from the lines of one dataset snapshot: each line
    /// is repaired, classified and deserialized, and the records are then
    /// indexed, the later line replacing the earlier on a repeated AS
    /// number or organization identifier. Loading is all or nothing: the
    /// first line that does not fill its schema fails the whole load,
    /// naming that line, and so does an AS number that is not a decimal
    /// numeral fitting 32 bits.
    pub fn from_lines(lines: &Vec<String>) -> (r: Result<As2org, As2orgError>)
        ensures
            r is Ok <==> lines_records_ok(lines@) && lines_asns_ok(lines@),
            r matches Ok(db) ==> db.wf(),
            r matches Ok(db) ==> db.as_model() == as_map_of_lines(lines@),
            r matches Ok(db) ==> db.org_model() == org_map_of_lines(lines@),
            r matches Err(e) ==> e matches As2orgError::LineParse { .. } || e
                matches As2orgError::InvalidAsn(_),
            r matches Err(e) ==> match e {
                As2orgError::LineParse { line: l, .. } => !line_ok(l@) && exists|k: int|
                    0 <= k < lines@.len() && (#[trigger] lines@[k])@ == l@,
                As2orgError::InvalidAsn(t) => !crate::text::is_u32_numeral(t@) && exists|k: int|
                    0 <= k < lines@.len() && line_ok((#[trigger] lines@[k])@) && line_is_as(
                        lines@[k]@,
                    ) && line_asn_text(lines@[k]@) == t@,
                _ => true,
            },
    {
        let mut records: Vec<Record> = Vec::new();
        let n = lines.len();
        let mut i: usize = 0;
        proof {
            assert(lines@.take(0) =~= Seq::<String>::empty());
            assert(spec_as_map(records@) =~= as_map_of_lines(lines@.take(0)));
            assert(spec_org_map(records@) =~= org_map_of_lines(lines@.take(0)));
        }
        while i < n
            invariant
                n == lines@.len(),
                i <= n,
                records@.len() == i,
                forall|k: int| 0 <= k < i ==> line_ok((#[trigger] lines@[k])@),
                forall|k: int|
                    0 <= k < i ==> rec_is_as(#[trigger] records@[k]) == line_is_as(lines@[k]@),
                forall|k: int|
                    0 <= k < i ==> match #[trigger] records@[k] {
                        Record::As(a) => a.asn@ == line_asn_text(lines@[k]@),
                        Record::Org(_) => true,
                    },
                spec_as_map(records@) == as_map_of_lines(lines@.take(i as int)),
                spec_org_map(records@) == org_map_of_lines(lines@.take(i as int)),
            decreases n - i,
        {
            let line = &lines[i];
            match parse_record_line(line.as_str()) {
                None => {
                    proof {
                        assert(!line_ok(lines@[i as int]@));
                        assert(!lines_records_ok(lines@));
                    }
                    return Err(
                        As2orgError::LineParse {
                            line: line.clone(),
                            message: String::from_str(
                                "the line does not deserialize under its record kind",
                            ),
                        },
                    );
                },
                Some(rec) => {
                    let ghost rec0 = rec;
                    let ghost recs0 = records@;
                    records.push(rec);
                    proof {
                        assert(records@.drop_last() =~= recs0);
                        assert(records@.last() == rec0);
                        assert(lines@.take(i + 1).drop_last() =~= lines@.take(i as int));
                        assert(lines@.take(i + 1).last() == lines@[i as int]);
                        let l = lines@[i as int]@;
                        match rec0 {
                            Record::As(a) => {
                                assert(as_view(a) == crate::records::line_as_view(l));
                                assert(asn_value_of(a) == line_asn_val(l));
                                assert(spec_as_map(records@) =~= as_map_of_lines(
                                    lines@.take(i + 1),
                                ));
                                assert(spec_org_map(records@) =~= org_map_of_lines(
                                    lines@.take(i + 1),
                                ));
                            },
                            Record::Org(o) => {
                                assert(org_view(o) == crate::records::line_org_view(l));
                                assert(spec_as_map(records@) =~= as_map_of_lines(
                                    lines@.take(i + 1),
                                ));
                                assert(spec_org_map(records@) =~= org_map_of_lines(
                                    lines@.take(i + 1),
                                ));
                            },
                        }
                    }
                },
            }
            i += 1;
        }
        proof {
            assert(lines@.take(n as int) =~= lines@);
        }
        match As2org::from_records(&records) {
            Ok(db) => {
                proof {
                    assert(lines_records_ok(lines@));
                    assert forall|k: int|
                        0 <= k < lines@.len() && line_ok((#[trigger] lines@[k])@) && line_is_as(
                            lines@[k]@,
                        ) implies line_asn_ok(lines@[k]@) by {
                        assert(rec_is_as(records@[k]));
                        assert(match records@[k] {
                            Record::As(a) => asn_ok(a),
                            Record::Org(_) => true,
                        });
                    }
                }
                Ok(db)
            },
            Err(e) => {
                proof {
                    let k = choose|k: int|
                        0 <= k < records@.len() && ((#[trigger] records@[k])
                            matches Record::As(a) && !asn_ok(a));
                    assert(line_is_as(lines@[k]@));
                    assert(line_ok(lines@[k]@));
                    assert(!line_asn_ok(lines@[k]@));
                    assert(!lines_asns_ok(lines@));
                    assert(match records@[k] {
                        Record::As(a) => a.asn@ == line_asn_text(lines@[k]@),
                        Record::Org(_) => true,
                    });
                }
                Err(e)
            },
        }
    }

    /// Builds the index from a dataset resource. With a path or URL, that
    /// resource is read; with nothing, the most recent published snapshot
    /// is discovered and read. Whatever the outside reader hands back, a
    /// returned index is well formed, and a parse failure names a line
    /// that indeed fails its schema.
    pub fn new(data_file_path: Option<String>) -> (r: Result<As2org, As2orgError>)
        ensures
            r matches Ok(db) ==> db.wf(),
            r matches Err(e) ==> e matches As2orgError::Transport(_) || e
                matches As2orgError::LineParse { .. } || e matches As2orgError::InvalidAsn(_)
                || e matches As2orgError::NoSnapshots || e matches As2orgError::InvalidDate(_),
            data_file_path is Some ==> (r matches Err(e) ==> e matches As2orgError::Transport(_)
                || e matches As2orgError::LineParse { .. } || e
                matches As2orgError::InvalidAsn(_)),
            r matches Err(e) ==> match e {
                As2orgError::LineParse { line: l, .. } => !line_ok(l@),
                As2orgError::InvalidAsn(t) => !crate::text::is_u32_numeral(t@),
                _ => true,
            },
    {
        let lines = match &data_file_path {
            Some(p) => {
                match crate::io::fetch_lines(p.as_str()) {
                    Ok(ls) => ls,
                    Err(m) => {
                        return Err(As2orgError::Transport(m));
                    },
                }
            },
            None => {
                let url = match crate::listing::get_most_recent_data() {
                    Ok(u) => u,
                    Err(e) => {
                        return Err(e);
                    },
                };
                match crate::io::fetch_lines(url.as_str()) {
                    Ok(ls) => ls,
                    Err(m) => {
                        return Err(As2orgError::Transport(m));
                    },
                }
            },
        };
        As2org::from_lines(&lines)
    }

    /// The fixed location of the alias that the hosting service resolves
    /// to the current snapshot. Nothing is fetched or parsed.
    pub fn get_latest_file_url() -> (r: String)
        ensures
            r@ == crate::listing::spec_base_url() + "/latest.as-org2info.jsonl.gz"@,
    {
        let mut u = String::from_str(crate::listing::base_url());
        u.append("/latest.as-org2info.jsonl.gz");
        u
    }
}


impl As2org {
    /// Is the AS number present in the index?
    pub fn contains_asn(&self, asn: u32) -> (r: bool)
        requires
            self.wf(),
        ensures
            r == self.has_asn(asn),
    {
        self.as_map.contains_key(&asn)
    }

    /// The identifier of the organization the AS is mapped to, when the
    /// AS is present.
    pub fn org_of_asn(&self, asn: u32) -> (r: Option<String>)
        requires
            self.wf(),
        ensures
            r is Some <==> self.has_asn(asn),
            r matches Some(s) ==> s@ == self.org_id_of(asn),
    {
        match self.as_to_org.get(&asn) {
            Some(o) => Some(self.org_ids[*o].clone()),
            None => None,
        }
    }

    /// Does some organization record carry this identifier?
    pub fn contains_org_id(&self, id: &String) -> (r: bool)
        requires
            self.wf(),
        ensures
            r == self.org_model().contains_key(id@),
    {
        let n = self.org_ids.len();
        let mut j: usize = 0;
        while j < n
            invariant
                self.wf(),
                n == self.org_ids@.len(),
                j <= n,
                forall|k: int|
                    0 <= k < j ==> !((#[trigger] self.org_ids@[k])@ == id@
                        && self.org_map@.contains_key(k as usize)),
            decreases n - j,
        {
            if id.eq(&self.org_ids[j]) && self.org_map.contains_key(&j) {
                proof {
                    lemma_idx_of_present(self.org_ids@, j as int);
                }
                return true;
            }
            j += 1;
        }
        proof {
            lemma_idx_of_bounds(self.org_ids@, id@);
            match idx_of(self.org_ids@, id@) {
                Some(w) => {
                    assert(self.org_ids@[w]@ == id@);
                    assert(!self.org_map@.contains_key(w as usize));
                },
                None => {},
            }
        }
        false
    }

    /// How many AS records the index holds.
    pub fn as_count(&self) -> (r: usize)
        requires
            self.wf(),
        ensures
            r == self.as_model().dom().len(),
    {
        proof {
            assert(self.as_model().dom() =~= self.as_map@.dom());
        }
        self.as_map.len()
    }

    /// How many organization records the index holds.
    pub fn org_count(&self) -> (r: usize)
        requires
            self.wf(),
        ensures
            r == self.org_record_count(),
    {
        self.org_map.len()
    }

    /// How many organization records the index holds.
    pub closed spec fn org_record_count(self) -> nat {
        self.org_map@.dom().len()
    }

    /// The AS-to-organization entries, one per stored AS, in first-seen
    /// key order.
    pub fn as_org_pairs(&self) -> (r: Vec<(u32, String)>)
        requires
            self.wf(),
        ensures
            r@.len() == self.first_seen_asns().len(),
            forall|i: int|
                0 <= i < r@.len() ==> (#[trigger] r@[i]).0 == self.first_seen_asns()[i],
            forall|i: int|
                0 <= i < r@.len() ==> self.has_asn((#[trigger] r@[i]).0) && r@[i].1@
                    == self.org_id_of(r@[i].0),
            forall|a: u32| #[trigger] self.has_asn(a) ==> exists|i: int|
                0 <= i < r@.len() && (#[trigger] r@[i]).0 == a,
    {
        let n = self.asn_order.len();
        let mut out: Vec<(u32, String)> = Vec::new();
        let mut j: usize = 0;
        while j < n
            invariant
                self.wf(),
                n == self.asn_order@.len(),
                j <= n,
                out@.len() == j,
                forall|i: int|
                    0 <= i < j ==> (#[trigger] out@[i]).0 == self.asn_order@[i],
                forall|i: int|
                    0 <= i < j ==> self.has_asn((#[trigger] out@[i]).0) && out@[i].1@
                        == self.org_id_of(out@[i].0),
            decreases n - j,
        {
            let a = self.asn_order[j];
            proof {
                assert(self.asn_order@.contains(a));
            }
            let e = match self.as_map.get(&a) {
                Some(e) => e,
                None => {
                    proof {
                        assert(false);
                    }
                    return out;
                },
            };
            out.push((a, self.org_ids[e.org].clone()));
            j += 1;
        }
        proof {
            assert forall|a: u32| #[trigger] self.has_asn(a) implies exists|i: int|
                0 <= i < out@.len() && (#[trigger] out@[i]).0 == a by {
                assert(self.asn_order@.contains(a));
                let w = choose|w: int|
                    0 <= w < self.asn_order@.len() && self.asn_order@[w] == a;
                assert(out@[w].0 == a);
            }
        }
        out
    }

    /// The organization-to-AS entries: for each organization operating
    /// stored ASes, its identifier once, with their numbers in first-seen
    /// order. Every stored AS's organization appears, with its whole
    /// sibling list.
    pub fn org_as_lists(&self) -> (r: Vec<(String, Vec<u32>)>)
        requires
            self.wf(),
        ensures
            forall|i: int, k: int|
                0 <= i < r@.len() && 0 <= k < r@[i].1@.len() ==> self.has_asn(
                    #[trigger] r@[i].1@[k],
                ) && self.org_id_of(r@[i].1@[k]) == r@[i].0@,
            forall|i: int| 0 <= i < r@.len() ==> (#[trigger] r@[i]).1@.len() >= 1,
            forall|i: int, j: int|
                0 <= i < j < r@.len() ==> (#[trigger] r@[i]).0@ != (#[trigger] r@[j]).0@,
            forall|a: u32| #[trigger] self.has_asn(a) ==> exists|i: int|
                0 <= i < r@.len() && r@[i].0@ == self.org_id_of(a) && r@[i].1@
                    == self.siblings_of(a),
    {
        let n = self.org_ids.len();
        let mut out: Vec<(String, Vec<u32>)> = Vec::new();
        let ghost mut idxs: Seq<int> = Seq::empty();
        let mut j: usize = 0;
        while j < n
            invariant
                self.wf(),
                n == self.org_ids@.len(),
                j <= n,
                idxs.len() == out@.len(),
                forall|t: int|
                    0 <= t < idxs.len() ==> 0 <= #[trigger] idxs[t] < j
                        && self.org_to_as@.contains_key(idxs[t] as usize) && out@[t].0@
                        == self.org_ids@[idxs[t]]@ && out@[t].1@ == self.org_to_as@[idxs[t]
                        as usize]@,
                forall|t1: int, t2: int|
                    0 <= t1 < t2 < idxs.len() ==> #[trigger] idxs[t1] < #[trigger] idxs[t2],
                forall|o: usize|
                    o < j && #[trigger] self.org_to_as@.contains_key(o) ==> exists|t: int|
                        0 <= t < idxs.len() && #[trigger] idxs[t] == o as int,
                forall|i: int, k: int|
                    0 <= i < out@.len() && 0 <= k < out@[i].1@.len() ==> self.has_asn(
                        #[trigger] out@[i].1@[k],
                    ) && self.org_id_of(out@[i].1@[k]) == out@[i].0@,
                forall|i: int| 0 <= i < out@.len() ==> (#[trigger] out@[i]).1@.len() >= 1,
            decreases n - j,
        {
            match self.org_to_as.get(&j) {
                Some(b) => {
                    proof {
                        let bb = self.org_to_as@[j as usize]@;
                        let w = choose|a: u32|
                            self.as_map@.contains_key(a) && (#[trigger] self.as_map@[a]).org
                                == j as usize;
                        assert(bb.contains(w));
                        assert(bb.len() >= 1);
                    }
                    let mut bucket: Vec<u32> = Vec::new();
                    let bn = b.len();
                    let mut k: usize = 0;
                    while k < bn
                        invariant
                            self.wf(),
                            j < n,
                            n == self.org_ids@.len(),
                            self.org_to_as@.contains_key(j as usize),
                            b@ == self.org_to_as@[j as usize]@,
                            bn == b@.len(),
                            k <= bn,
                            bucket@ == b@.take(k as int),
                        decreases bn - k,
                    {
                        bucket.push(b[k]);
                        proof {
                            assert(b@.take(k as int).push(b@[k as int]) =~= b@.take(
                                k as int + 1,
                            ));
                        }
                        k += 1;
                    }
                    proof {
                        assert(bucket@ =~= b@);
                    }
                    out.push((self.org_ids[j].clone(), bucket));
                    proof {
                        let idxs0 = idxs;
                        idxs = idxs0.push(j as int);
                        assert forall|o: usize|
                            o < j + 1 && #[trigger] self.org_to_as@.contains_key(o) implies exists|
                            t: int,
                        | 0 <= t < idxs.len() && #[trigger] idxs[t] == o as int by {
                            if o == j {
                                assert(idxs[idxs.len() - 1] == j as int);
                            } else {
                                let t = choose|t: int|
                                    0 <= t < idxs0.len() && #[trigger] idxs0[t] == o as int;
                                assert(idxs[t] == o as int);
                            }
                        }
                    }
                },
                None => {},
            }
            j += 1;
        }
        proof {
            assert forall|a: u32| #[trigger] self.has_asn(a) implies exists|i: int|
                0 <= i < out@.len() && out@[i].0@ == self.org_id_of(a) && out@[i].1@
                    == self.siblings_of(a) by {
                let o = self.as_map@[a].org;
                assert(self.org_to_as@.contains_key(o));
                assert(o < n);
                let t = choose|t: int| 0 <= t < idxs.len() && #[trigger] idxs[t] == o as int;
                assert(out@[t].0@ == self.org_ids@[o as int]@);
                assert(out@[t].1@ == self.org_to_as@[o]@);
            }
            assert forall|i: int, j2: int| 0 <= i < j2 < out@.len() implies (
            #[trigger] out@[i]).0@ != (#[trigger] out@[j2]).0@ by {
                assert(idxs[i] < idxs[j2]);
                assert(self.org_ids@[idxs[i]]@ != self.org_ids@[idxs[j2]]@);
            }
        }
        out
    }
}

/// Same-organization testing does not depend on the order of its
/// arguments.
pub proof fn lemma_are_siblings_symmetric(db: As2org, a: u32, b: u32)
    ensures
        db.same_org(a, b) == db.same_org(b, a),
{
}

/// An AS present in the index is always its own sibling.
pub proof fn lemma_are_siblings_reflexive(db: As2org, a: u32)
    requires
        db.has_asn(a),
    ensures
        db.same_org(a, a),
{
}

/// An AS absent from the index is nobody's sibling, whatever the other
/// argument.
pub proof fn lemma_absent_never_sibling(db: As2org, a: u32, b: u32)
    requires
        !db.has_asn(a) || !db.has_asn(b),
    ensures
        !db.same_org(a, b),
{
}

/// The sibling list of a present AS holds exactly the AS numbers mapped
/// to the same organization, each once.
pub proof fn lemma_siblings_exactly_same_org(db: As2org, a: u32, b: u32)
    requires
        db.wf(),
        db.has_asn(a),
    ensures
        db.siblings_of(a).contains(b) <==> db.same_org(a, b),
        db.siblings_of(a).no_duplicates(),
{
    let o = db.as_map@[a].org;
    assert(db.org_to_as@.contains_key(o));
    if db.siblings_of(a).contains(b) {
        let w = choose|w: int|
            0 <= w < db.siblings_of(a).len() && db.siblings_of(a)[w] == b;
        assert(db.org_to_as@[o]@[w] == b);
        assert(db.as_map@.contains_key(b) && db.as_map@[b].org == o);
    }
    if db.same_org(a, b) {
        let ob = db.as_map@[b].org;
        if ob != o {
            if ob < o {
                assert(db.org_ids@[ob as int]@ != db.org_ids@[o as int]@);
            } else {
                assert(db.org_ids@[o as int]@ != db.org_ids@[ob as int]@);
            }
        }
        assert(db.org_to_as@[o]@.contains(b));
    }
}

proof fn lemma_members_are_same_org_filter(db: As2org, a: u32, order: Seq<u32>)
    requires
        db.wf(),
        db.has_asn(a),
    ensures
        org_members(order, db.as_map@, db.as_map@[a].org) == db.same_org_filter(a, order),
    decreases order.len(),
{
    reveal(Seq::filter);
    if order.len() > 0 {
        lemma_members_are_same_org_filter(db, a, order.drop_last());
        let b = order.last();
        let o = db.as_map@[a].org;
        if db.as_map@.contains_key(b) && db.as_map@[b].org == o {
            assert(db.same_org(a, b));
        }
        if db.same_org(a, b) {
            let ob = db.as_map@[b].org;
            if ob != o {
                if ob < o {
                    assert(db.org_ids@[ob as int]@ != db.org_ids@[o as int]@);
                } else {
                    assert(db.org_ids@[o as int]@ != db.org_ids@[ob as int]@);
                }
            }
        }
    }
}

/// Sibling listing is deterministic: the siblings of a present AS are
/// exactly the same-organization AS numbers, in the order those numbers
/// were first seen during the build.
pub proof fn lemma_siblings_in_first_seen_order(db: As2org, a: u32)
    requires
        db.wf(),
        db.has_asn(a),
    ensures
        db.siblings_of(a) == db.same_org_filter(a, db.first_seen_asns()),
{
    lemma_members_are_same_org_filter(db, a, db.asn_order@);
    assert(db.org_to_as@.contains_key(db.as_map@[a].org));
}

/// Enrichment lookups are deterministic: any two results for one AS on one
/// loaded index agree, in presence and in every field.
pub proof fn lemma_get_as_info_deterministic(
    db: As2org,
    a: u32,
    r1: Option<As2orgAsInfo>,
    r2: Option<As2orgAsInfo>,
)
    requires
        db.info_result_matches(a, r1),
        db.info_result_matches(a, r2),
    ensures
        r1 is Some <==> r2 is Some,
        match (r1, r2) {
            (Some(i1), Some(i2)) => i1.asn == i2.asn && i1.name@ == i2.name@ && i1.org_id@
                == i2.org_id@ && i1.org_name@ == i2.org_name@ && i1.country_code@
                == i2.country_code@ && i1.source@ == i2.source@,
            _ => true,
        },
{
}

} // verus!
