use vstd::prelude::*;

use crate::json::{members_view, parse_object_spec, JMember, JValue, JValueModel};
use crate::repair::repair_text;
use crate::text::{contains_sub, dec_val, is_u32_numeral, numeral_digits};

verus! {

/// One AS record of the dataset, as parsed from its line. The AS number is
/// kept as the numeral text the line carried.
pub struct AsRecord {
    pub asn: String,
    pub changed: Option<String>,
    pub name: String,
    pub opaque_id: Option<String>,
    pub org_id: String,
    pub source: String,
    pub data_type: String,
}

/// One organization record of the dataset, as parsed from its line.
pub struct OrgRecord {
    pub org_id: String,
    pub changed: Option<String>,
    pub name: String,
    pub country: String,
    pub source: String,
    pub data_type: String,
}

/// One record of the dataset: each line holds either kind.
pub enum Record {
    As(AsRecord),
    Org(OrgRecord),
}

/// The view of an optional text.
pub open spec fn opt_view(o: Option<String>) -> Option<Seq<char>> {
    match o {
        None => None,
        Some(s) => Some(s@),
    }
}

/// The mathematical content of an AS record, without its number.
#[verifier::ext_equal]
pub struct AsView {
    pub name: Seq<char>,
    pub org_id: Seq<char>,
    pub opaque_id: Option<Seq<char>>,
    pub changed: Option<Seq<char>>,
    pub source: Seq<char>,
    pub data_type: Seq<char>,
}

/// The mathematical content of an organization record, without its
/// identifier.
#[verifier::ext_equal]
pub struct OrgView {
    pub name: Seq<char>,
    pub country: Seq<char>,
    pub changed: Option<Seq<char>>,
    pub source: Seq<char>,
    pub data_type: Seq<char>,
}

/// The view of an AS record.
pub open spec fn as_view(r: AsRecord) -> AsView {
    AsView {
        name: r.name@,
        org_id: r.org_id@,
        opaque_id: opt_view(r.opaque_id),
        changed: opt_view(r.changed),
        source: r.source@,
        data_type: r.data_type@,
    }
}

/// The view of an organization record.
pub open spec fn org_view(r: OrgRecord) -> OrgView {
    OrgView {
        name: r.name@,
        country: r.country@,
        changed: opt_view(r.changed),
        source: r.source@,
        data_type: r.data_type@,
    }
}

/// The AS record's number text is a decimal numeral fitting 32 bits.
pub open spec fn asn_ok(r: AsRecord) -> bool {
    is_u32_numeral(r.asn@)
}

/// The number the AS record's numeral text stands for.
pub open spec fn asn_value_of(r: AsRecord) -> u32 {
    dec_val(numeral_digits(r.asn@)) as u32
}

/// Every AS record of the sequence carries a well-formed number.
pub open spec fn all_asns_numeric(records: Seq<Record>) -> bool {
    forall|i: int|
        0 <= i < records.len() ==> match #[trigger] records[i] {
            Record::As(a) => asn_ok(a),
            Record::Org(_) => true,
        }
}

/// The AS map a record sequence stands for: one entry per AS number, the
/// later record replacing the earlier on a repeated number.
pub open spec fn spec_as_map(records: Seq<Record>) -> Map<u32, AsView>
    decreases records.len(),
{
    if records.len() == 0 {
        Map::empty()
    } else {
        let m = spec_as_map(records.drop_last());
        match records.last() {
            Record::As(a) => m.insert(asn_value_of(a), as_view(a)),
            Record::Org(_) => m,
        }
    }
}

/// The organization map a record sequence stands for: one entry per
/// identifier, the later record replacing the earlier on a repeated
/// identifier.
pub open spec fn spec_org_map(records: Seq<Record>) -> Map<Seq<char>, OrgView>
    decreases records.len(),
{
    if records.len() == 0 {
        Map::empty()
    } else {
        let m = spec_org_map(records.drop_last());
        match records.last() {
            Record::As(_) => m,
            Record::Org(o) => m.insert(o.org_id@, org_view(o)),
        }
    }
}

/// How many members carry one of the given names as key.
pub open spec fn match_count(ms: Seq<(Seq<char>, JValueModel)>, names: Seq<Seq<char>>) -> int
    decreases ms.len(),
{
    if ms.len() == 0 {
        0
    } else {
        (if names.contains(ms[0].0) {
            1int
        } else {
            0int
        }) + match_count(ms.skip(1), names)
    }
}

/// The value of the first member carrying one of the given names.
pub open spec fn first_match(ms: Seq<(Seq<char>, JValueModel)>, names: Seq<Seq<char>>) -> Option<
    JValueModel,
>
    decreases ms.len(),
{
    if ms.len() == 0 {
        None
    } else if names.contains(ms[0].0) {
        Some(ms[0].1)
    } else {
        first_match(ms.skip(1), names)
    }
}

pub proof fn lemma_match_count_nonneg(ms: Seq<(Seq<char>, JValueModel)>, names: Seq<Seq<char>>)
    ensures
        match_count(ms, names) >= 0,
    decreases ms.len(),
{
    if ms.len() > 0 {
        lemma_match_count_nonneg(ms.skip(1), names);
    }
}

pub proof fn lemma_match_push(
    ms: Seq<(Seq<char>, JValueModel)>,
    names: Seq<Seq<char>>,
    m: (Seq<char>, JValueModel),
)
    ensures
        match_count(ms.push(m), names) == match_count(ms, names) + (if names.contains(m.0) {
            1int
        } else {
            0int
        }),
        first_match(ms.push(m), names) == (if first_match(ms, names) is Some {
            first_match(ms, names)
        } else if names.contains(m.0) {
            Some(m.1)
        } else {
            None
        }),
    decreases ms.len(),
{
    if ms.len() == 0 {
        assert(ms.push(m)[0] == m);
        assert(ms.push(m).skip(1) =~= Seq::<(Seq<char>, JValueModel)>::empty());
        assert(match_count(Seq::<(Seq<char>, JValueModel)>::empty(), names) == 0);
        assert(first_match(Seq::<(Seq<char>, JValueModel)>::empty(), names) is None);
        assert(ms =~= Seq::<(Seq<char>, JValueModel)>::empty());
    } else {
        assert(ms.push(m)[0] == ms[0]);
        assert(ms.push(m).skip(1) =~= ms.skip(1).push(m));
        lemma_match_push(ms.skip(1), names, m);
        assert(match_count(ms.push(m), names) == (if names.contains(ms[0].0) {
            1int
        } else {
            0int
        }) + match_count(ms.skip(1).push(m), names));
        assert(first_match(ms.push(m), names) == (if names.contains(ms[0].0) {
            Some(ms[0].1)
        } else {
            first_match(ms.skip(1).push(m), names)
        }));
    }
}

pub proof fn lemma_match_take_le(
    ms: Seq<(Seq<char>, JValueModel)>,
    names: Seq<Seq<char>>,
    i: int,
)
    requires
        0 <= i <= ms.len(),
    ensures
        match_count(ms, names) >= match_count(ms.take(i), names),
    decreases ms.len() - i,
{
    if i < ms.len() {
        lemma_match_take_le(ms, names, i + 1);
        assert(ms.take(i + 1) =~= ms.take(i).push(ms[i]));
        lemma_match_push(ms.take(i), names, ms[i]);
    } else {
        assert(ms.take(i) =~= ms);
    }
}

pub proof fn lemma_first_match_stable(
    ms: Seq<(Seq<char>, JValueModel)>,
    names: Seq<Seq<char>>,
    i: int,
)
    requires
        0 <= i <= ms.len(),
        first_match(ms.take(i), names) is Some,
    ensures
        first_match(ms, names) == first_match(ms.take(i), names),
    decreases ms.len() - i,
{
    if i < ms.len() {
        assert(ms.take(i + 1) =~= ms.take(i).push(ms[i]));
        lemma_match_push(ms.take(i), names, ms[i]);
        lemma_first_match_stable(ms, names, i + 1);
    } else {
        assert(ms.take(i) =~= ms);
    }
}

/// The names accepted for each logical field of the two schemas.
pub open spec fn asn_names() -> Seq<Seq<char>> {
    seq!["asn"@]
}

pub open spec fn changed_names() -> Seq<Seq<char>> {
    seq!["changed"@]
}

pub open spec fn name_names() -> Seq<Seq<char>> {
    seq!["name"@]
}

pub open spec fn opaque_names() -> Seq<Seq<char>> {
    seq!["opaque_id"@, "opaqueId"@]
}

pub open spec fn org_id_names() -> Seq<Seq<char>> {
    seq!["org_id"@, "organizationId"@]
}

pub open spec fn source_names() -> Seq<Seq<char>> {
    seq!["source"@]
}

pub open spec fn type_names() -> Seq<Seq<char>> {
    seq!["type"@]
}

pub open spec fn country_names() -> Seq<Seq<char>> {
    seq!["country"@]
}

pub open spec fn org_type_names() -> Seq<Seq<char>> {
    seq!["data_type"@, "type"@]
}

/// A required text field: named exactly once, by a string value.
pub open spec fn req_str(ms: Seq<(Seq<char>, JValueModel)>, names: Seq<Seq<char>>) -> bool {
    match_count(ms, names) == 1 && first_match(ms, names) matches Some(JValueModel::VStr(_))
}

/// An optional text field: absent, or named once by a string or null.
pub open spec fn opt_str(ms: Seq<(Seq<char>, JValueModel)>, names: Seq<Seq<char>>) -> bool {
    ||| match_count(ms, names) == 0
    ||| (match_count(ms, names) == 1 && (first_match(ms, names) matches Some(
        JValueModel::VStr(_),
    ) || first_match(ms, names) matches Some(JValueModel::VNull)))
}

/// A defaulted text field: absent, or named once by a string.
pub open spec fn dflt_str(ms: Seq<(Seq<char>, JValueModel)>, names: Seq<Seq<char>>) -> bool {
    ||| match_count(ms, names) == 0
    ||| (match_count(ms, names) == 1 && first_match(ms, names) matches Some(
        JValueModel::VStr(_),
    ))
}

/// The text a required or defaulted field carries.
pub open spec fn str_of(v: Option<JValueModel>) -> Seq<char> {
    match v {
        Some(JValueModel::VStr(s)) => s,
        _ => Seq::empty(),
    }
}

/// What an optional field carries: nothing when absent or null.
pub open spec fn opt_field_of(ms: Seq<(Seq<char>, JValueModel)>, names: Seq<Seq<char>>) -> Option<
    Seq<char>,
> {
    if match_count(ms, names) == 0 {
        None
    } else {
        match first_match(ms, names) {
            Some(JValueModel::VStr(s)) => Some(s),
            _ => None,
        }
    }
}

/// What a defaulted field carries: the empty text when absent.
pub open spec fn dflt_field_of(ms: Seq<(Seq<char>, JValueModel)>, names: Seq<Seq<char>>) -> Seq<
    char,
> {
    if match_count(ms, names) == 0 {
        Seq::empty()
    } else {
        str_of(first_match(ms, names))
    }
}

/// The members fill the AS schema: `asn`, `org_id` (or `organizationId`),
/// `source` and `type` as strings, `name` defaulted, `changed` and
/// `opaque_id` (or `opaqueId`) optional, each field named at most once.
pub open spec fn as_fields_ok(ms: Seq<(Seq<char>, JValueModel)>) -> bool {
    &&& req_str(ms, asn_names())
    &&& req_str(ms, org_id_names())
    &&& req_str(ms, source_names())
    &&& req_str(ms, type_names())
    &&& dflt_str(ms, name_names())
    &&& opt_str(ms, changed_names())
    &&& opt_str(ms, opaque_names())
}

/// The members fill the organization schema: `org_id` (or
/// `organizationId`), `country`, `source` and `data_type` (or `type`) as
/// strings, `name` defaulted, `changed` optional, each field named at most
/// once.
pub open spec fn org_fields_ok(ms: Seq<(Seq<char>, JValueModel)>) -> bool {
    &&& req_str(ms, org_id_names())
    &&& req_str(ms, country_names())
    &&& req_str(ms, source_names())
    &&& req_str(ms, org_type_names())
    &&& dflt_str(ms, name_names())
    &&& opt_str(ms, changed_names())
}

/// A field is named by no member exactly when it has no first value.
pub proof fn lemma_count0_first_none(ms: Seq<(Seq<char>, JValueModel)>, names: Seq<Seq<char>>)
    ensures
        (match_count(ms, names) == 0) <==> (first_match(ms, names) is None),
    decreases ms.len(),
{
    if ms.len() > 0 {
        lemma_count0_first_none(ms.skip(1), names);
        lemma_match_count_nonneg(ms.skip(1), names);
    }
}

/// A name list of one entry holds exactly that name.
pub proof fn lemma_in_names1(names: Seq<Seq<char>>, x: Seq<char>)
    requires
        names.len() == 1,
    ensures
        names.contains(x) <==> x == names[0],
{
    if x == names[0] {
        assert(names.contains(x));
    }
}

/// A name list of two entries holds exactly those names.
pub proof fn lemma_in_names2(names: Seq<Seq<char>>, x: Seq<char>)
    requires
        names.len() == 2,
    ensures
        names.contains(x) <==> x == names[0] || x == names[1],
{
    if x == names[0] || x == names[1] {
        assert(names.contains(x));
    }
}

/// A slot for a required or defaulted field, against the members read so
/// far.
pub open spec fn slot_req_inv(
    slot: Option<String>,
    ms: Seq<(Seq<char>, JValueModel)>,
    names: Seq<Seq<char>>,
) -> bool {
    match slot {
        None => match_count(ms, names) == 0,
        Some(s) => match_count(ms, names) == 1 && first_match(ms, names) == Some(
            JValueModel::VStr(s@),
        ),
    }
}

/// A slot for an optional field, against the members read so far: the
/// outer level records presence, the inner a string against a null.
pub open spec fn slot_opt_inv(
    slot: Option<Option<String>>,
    ms: Seq<(Seq<char>, JValueModel)>,
    names: Seq<Seq<char>>,
) -> bool {
    match slot {
        None => match_count(ms, names) == 0,
        Some(None) => match_count(ms, names) == 1 && first_match(ms, names) == Some(
            JValueModel::VNull,
        ),
        Some(Some(s)) => match_count(ms, names) == 1 && first_match(ms, names) == Some(
            JValueModel::VStr(s@),
        ),
    }
}

/// Reads one member into a required or defaulted field's slot. Fails on a
/// second member of the field's names, and on a value that is not a
/// string.
fn feed_req_slot(
    slot: &mut Option<String>,
    m: &JMember,
    matched: bool,
    mv: Ghost<Seq<(Seq<char>, JValueModel)>>,
    names: Ghost<Seq<Seq<char>>>,
) -> (ok: bool)
    requires
        slot_req_inv(*old(slot), mv@, names@),
        matched == names@.contains(m.key@),
    ensures
        ok ==> slot_req_inv(*final(slot), mv@.push(crate::json::member_view(*m)), names@),
        !ok ==> match_count(mv@.push(crate::json::member_view(*m)), names@) >= 2 || (match_count(
            mv@.push(crate::json::member_view(*m)),
            names@,
        ) == 1 && !(first_match(mv@.push(crate::json::member_view(*m)), names@) matches Some(
            JValueModel::VStr(_),
        ))),
{
    proof {
        lemma_match_push(mv@, names@, crate::json::member_view(*m));
        lemma_count0_first_none(mv@, names@);
    }
    if !matched {
        return true;
    }
    if slot.is_some() {
        proof {
            lemma_match_count_nonneg(mv@, names@);
        }
        return false;
    }
    match &m.value {
        JValue::JStr(v) => {
            *slot = Some(v.clone());
            true
        },
        _ => false,
    }
}

/// Reads one member into an optional field's slot. Fails on a second
/// member of the field's names, and on a value that is neither a string
/// nor null.
fn feed_opt_slot(
    slot: &mut Option<Option<String>>,
    m: &JMember,
    matched: bool,
    mv: Ghost<Seq<(Seq<char>, JValueModel)>>,
    names: Ghost<Seq<Seq<char>>>,
) -> (ok: bool)
    requires
        slot_opt_inv(*old(slot), mv@, names@),
        matched == names@.contains(m.key@),
    ensures
        ok ==> slot_opt_inv(*final(slot), mv@.push(crate::json::member_view(*m)), names@),
        !ok ==> match_count(mv@.push(crate::json::member_view(*m)), names@) >= 2 || (match_count(
            mv@.push(crate::json::member_view(*m)),
            names@,
        ) == 1 && !(first_match(mv@.push(crate::json::member_view(*m)), names@) matches Some(
            JValueModel::VStr(_),
        )) && !(first_match(mv@.push(crate::json::member_view(*m)), names@) matches Some(
            JValueModel::VNull,
        ))),
{
    proof {
        lemma_match_push(mv@, names@, crate::json::member_view(*m));
        lemma_count0_first_none(mv@, names@);
    }
    if !matched {
        return true;
    }
    if slot.is_some() {
        proof {
            lemma_match_count_nonneg(mv@, names@);
        }
        return false;
    }
    match &m.value {
        JValue::JStr(v) => {
            *slot = Some(Some(v.clone()));
            true
        },
        JValue::JNull => {
            *slot = Some(None);
            true
        },
        JValue::JOther => false,
    }
}

/// Reads the members into an AS record, by the AS schema.
pub fn extract_as_record(ms: &Vec<JMember>) -> (r: Option<AsRecord>)
    ensures
        r is Some <==> as_fields_ok(members_view(ms@)),
        r matches Some(rec) ==> ({
            let mv = members_view(ms@);
            &&& rec.asn@ == str_of(first_match(mv, asn_names()))
            &&& rec.org_id@ == str_of(first_match(mv, org_id_names()))
            &&& rec.source@ == str_of(first_match(mv, source_names()))
            &&& rec.data_type@ == str_of(first_match(mv, type_names()))
            &&& rec.name@ == dflt_field_of(mv, name_names())
            &&& opt_view(rec.changed) == opt_field_of(mv, changed_names())
            &&& opt_view(rec.opaque_id) == opt_field_of(mv, opaque_names())
        }),
{
    let ghost mv = members_view(ms@);
    let n_asn = String::from_str("asn");
    let n_changed = String::from_str("changed");
    let n_name = String::from_str("name");
    let n_opq1 = String::from_str("opaque_id");
    let n_opq2 = String::from_str("opaqueId");
    let n_org1 = String::from_str("org_id");
    let n_org2 = String::from_str("organizationId");
    let n_src = String::from_str("source");
    let n_typ = String::from_str("type");
    let mut asn_s: Option<String> = None;
    let mut org_s: Option<String> = None;
    let mut src_s: Option<String> = None;
    let mut typ_s: Option<String> = None;
    let mut name_s: Option<String> = None;
    let mut changed_s: Option<Option<String>> = None;
    let mut opaque_s: Option<Option<String>> = None;
    let nm = ms.len();
    let mut i: usize = 0;
    proof {
        assert(mv.take(0) =~= Seq::<(Seq<char>, JValueModel)>::empty());
    }
    while i < nm
        invariant
            nm == ms@.len(),
            i <= nm,
            mv == members_view(ms@),
            n_asn@ == "asn"@,
            n_changed@ == "changed"@,
            n_name@ == "name"@,
            n_opq1@ == "opaque_id"@,
            n_opq2@ == "opaqueId"@,
            n_org1@ == "org_id"@,
            n_org2@ == "organizationId"@,
            n_src@ == "source"@,
            n_typ@ == "type"@,
            slot_req_inv(asn_s, mv.take(i as int), asn_names()),
            slot_req_inv(org_s, mv.take(i as int), org_id_names()),
            slot_req_inv(src_s, mv.take(i as int), source_names()),
            slot_req_inv(typ_s, mv.take(i as int), type_names()),
            slot_req_inv(name_s, mv.take(i as int), name_names()),
            slot_opt_inv(changed_s, mv.take(i as int), changed_names()),
            slot_opt_inv(opaque_s, mv.take(i as int), opaque_names()),
        decreases nm - i,
    {
        let m = &ms[i];
        proof {
            assert(mv[i as int] == crate::json::member_view(ms@[i as int]));
            assert(mv.take(i + 1) =~= mv.take(i as int).push(mv[i as int]));
            lemma_in_names1(asn_names(), m.key@);
            lemma_in_names2(org_id_names(), m.key@);
            lemma_in_names1(source_names(), m.key@);
            lemma_in_names1(type_names(), m.key@);
            lemma_in_names1(name_names(), m.key@);
            lemma_in_names1(changed_names(), m.key@);
            lemma_in_names2(opaque_names(), m.key@);
        }
        let k = &m.key;
        if !feed_req_slot(&mut asn_s, m, k.eq(&n_asn), Ghost(mv.take(i as int)), Ghost(
            asn_names(),
        )) {
            proof {
                lemma_match_take_le(mv, asn_names(), i + 1);
                if first_match(mv.take(i + 1), asn_names()) is Some {
                    lemma_first_match_stable(mv, asn_names(), i + 1);
                }
                lemma_count0_first_none(mv.take(i + 1), asn_names());
            }
            return None;
        }
        if !feed_req_slot(&mut org_s, m, k.eq(&n_org1) || k.eq(&n_org2), Ghost(
            mv.take(i as int),
        ), Ghost(org_id_names())) {
            proof {
                lemma_match_take_le(mv, org_id_names(), i + 1);
                if first_match(mv.take(i + 1), org_id_names()) is Some {
                    lemma_first_match_stable(mv, org_id_names(), i + 1);
                }
                lemma_count0_first_none(mv.take(i + 1), org_id_names());
            }
            return None;
        }
        if !feed_req_slot(&mut src_s, m, k.eq(&n_src), Ghost(mv.take(i as int)), Ghost(
            source_names(),
        )) {
            proof {
                lemma_match_take_le(mv, source_names(), i + 1);
                if first_match(mv.take(i + 1), source_names()) is Some {
                    lemma_first_match_stable(mv, source_names(), i + 1);
                }
                lemma_count0_first_none(mv.take(i + 1), source_names());
            }
            return None;
        }
        if !feed_req_slot(&mut typ_s, m, k.eq(&n_typ), Ghost(mv.take(i as int)), Ghost(
            type_names(),
        )) {
            proof {
                lemma_match_take_le(mv, type_names(), i + 1);
                if first_match(mv.take(i + 1), type_names()) is Some {
                    lemma_first_match_stable(mv, type_names(), i + 1);
                }
                lemma_count0_first_none(mv.take(i + 1), type_names());
            }
            return None;
        }
        if !feed_req_slot(&mut name_s, m, k.eq(&n_name), Ghost(mv.take(i as int)), Ghost(
            name_names(),
        )) {
            proof {
                lemma_match_take_le(mv, name_names(), i + 1);
                if first_match(mv.take(i + 1), name_names()) is Some {
                    lemma_first_match_stable(mv, name_names(), i + 1);
                }
                lemma_count0_first_none(mv.take(i + 1), name_names());
            }
            return None;
        }
        if !feed_opt_slot(&mut changed_s, m, k.eq(&n_changed), Ghost(mv.take(i as int)), Ghost(
            changed_names(),
        )) {
            proof {
                lemma_match_take_le(mv, changed_names(), i + 1);
                if first_match(mv.take(i + 1), changed_names()) is Some {
                    lemma_first_match_stable(mv, changed_names(), i + 1);
                }
                lemma_count0_first_none(mv.take(i + 1), changed_names());
            }
            return None;
        }
        if !feed_opt_slot(&mut opaque_s, m, k.eq(&n_opq1) || k.eq(&n_opq2), Ghost(
            mv.take(i as int),
        ), Ghost(opaque_names())) {
            proof {
                lemma_match_take_le(mv, opaque_names(), i + 1);
                if first_match(mv.take(i + 1), opaque_names()) is Some {
                    lemma_first_match_stable(mv, opaque_names(), i + 1);
                }
                lemma_count0_first_none(mv.take(i + 1), opaque_names());
            }
            return None;
        }
        i += 1;
    }
    proof {
        assert(mv.take(nm as int) =~= mv);
    }
    let asn = match asn_s {
        Some(s) => s,
        None => {
            return None;
        },
    };
    let org_id = match org_s {
        Some(s) => s,
        None => {
            return None;
        },
    };
    let source = match src_s {
        Some(s) => s,
        None => {
            return None;
        },
    };
    let data_type = match typ_s {
        Some(s) => s,
        None => {
            return None;
        },
    };
    let name = match name_s {
        Some(s) => s,
        None => String::new(),
    };
    let changed = match changed_s {
        Some(x) => x,
        None => None,
    };
    let opaque_id = match opaque_s {
        Some(x) => x,
        None => None,
    };
    Some(AsRecord { asn, changed, name, opaque_id, org_id, source, data_type })
}

/// Reads the members into an organization record, by its schema.
pub fn extract_org_record(ms: &Vec<JMember>) -> (r: Option<OrgRecord>)
    ensures
        r is Some <==> org_fields_ok(members_view(ms@)),
        r matches Some(rec) ==> ({
            let mv = members_view(ms@);
            &&& rec.org_id@ == str_of(first_match(mv, org_id_names()))
            &&& rec.country@ == str_of(first_match(mv, country_names()))
            &&& rec.source@ == str_of(first_match(mv, source_names()))
            &&& rec.data_type@ == str_of(first_match(mv, org_type_names()))
            &&& rec.name@ == dflt_field_of(mv, name_names())
            &&& opt_view(rec.changed) == opt_field_of(mv, changed_names())
        }),
{
    let ghost mv = members_view(ms@);
    let n_changed = String::from_str("changed");
    let n_name = String::from_str("name");
    let n_org1 = String::from_str("org_id");
    let n_org2 = String::from_str("organizationId");
    let n_src = String::from_str("source");
    let n_ctr = String::from_str("country");
    let n_typ1 = String::from_str("data_type");
    let n_typ2 = String::from_str("type");
    let mut org_s: Option<String> = None;
    let mut ctr_s: Option<String> = None;
    let mut src_s: Option<String> = None;
    let mut typ_s: Option<String> = None;
    let mut name_s: Option<String> = None;
    let mut changed_s: Option<Option<String>> = None;
    let nm = ms.len();
    let mut i: usize = 0;
    proof {
        assert(mv.take(0) =~= Seq::<(Seq<char>, JValueModel)>::empty());
    }
    while i < nm
        invariant
            nm == ms@.len(),
            i <= nm,
            mv == members_view(ms@),
            n_changed@ == "changed"@,
            n_name@ == "name"@,
            n_org1@ == "org_id"@,
            n_org2@ == "organizationId"@,
            n_src@ == "source"@,
            n_ctr@ == "country"@,
            n_typ1@ == "data_type"@,
            n_typ2@ == "type"@,
            slot_req_inv(org_s, mv.take(i as int), org_id_names()),
            slot_req_inv(ctr_s, mv.take(i as int), country_names()),
            slot_req_inv(src_s, mv.take(i as int), source_names()),
            slot_req_inv(typ_s, mv.take(i as int), org_type_names()),
            slot_req_inv(name_s, mv.take(i as int), name_names()),
            slot_opt_inv(changed_s, mv.take(i as int), changed_names()),
        decreases nm - i,
    {
        let m = &ms[i];
        proof {
            assert(mv[i as int] == crate::json::member_view(ms@[i as int]));
            assert(mv.take(i + 1) =~= mv.take(i as int).push(mv[i as int]));
            lemma_in_names2(org_id_names(), m.key@);
            lemma_in_names1(country_names(), m.key@);
            lemma_in_names1(source_names(), m.key@);
            lemma_in_names2(org_type_names(), m.key@);
            lemma_in_names1(name_names(), m.key@);
            lemma_in_names1(changed_names(), m.key@);
        }
        let k = &m.key;
        if !feed_req_slot(&mut org_s, m, k.eq(&n_org1) || k.eq(&n_org2), Ghost(
            mv.take(i as int),
        ), Ghost(org_id_names())) {
            proof {
                lemma_match_take_le(mv, org_id_names(), i + 1);
                if first_match(mv.take(i + 1), org_id_names()) is Some {
                    lemma_first_match_stable(mv, org_id_names(), i + 1);
                }
                lemma_count0_first_none(mv.take(i + 1), org_id_names());
            }
            return None;
        }
        if !feed_req_slot(&mut ctr_s, m, k.eq(&n_ctr), Ghost(mv.take(i as int)), Ghost(
            country_names(),
        )) {
            proof {
                lemma_match_take_le(mv, country_names(), i + 1);
                if first_match(mv.take(i + 1), country_names()) is Some {
                    lemma_first_match_stable(mv, country_names(), i + 1);
                }
                lemma_count0_first_none(mv.take(i + 1), country_names());
            }
            return None;
        }
        if !feed_req_slot(&mut src_s, m, k.eq(&n_src), Ghost(mv.take(i as int)), Ghost(
            source_names(),
        )) {
            proof {
                lemma_match_take_le(mv, source_names(), i + 1);
                if first_match(mv.take(i + 1), source_names()) is Some {
                    lemma_first_match_stable(mv, source_names(), i + 1);
                }
                lemma_count0_first_none(mv.take(i + 1), source_names());
            }
            return None;
        }
        if !feed_req_slot(&mut typ_s, m, k.eq(&n_typ1) || k.eq(&n_typ2), Ghost(
            mv.take(i as int),
        ), Ghost(org_type_names())) {
            proof {
                lemma_match_take_le(mv, org_type_names(), i + 1);
                if first_match(mv.take(i + 1), org_type_names()) is Some {
                    lemma_first_match_stable(mv, org_type_names(), i + 1);
                }
                lemma_count0_first_none(mv.take(i + 1), org_type_names());
            }
            return None;
        }
        if !feed_req_slot(&mut name_s, m, k.eq(&n_name), Ghost(mv.take(i as int)), Ghost(
            name_names(),
        )) {
            proof {
                lemma_match_take_le(mv, name_names(), i + 1);
                if first_match(mv.take(i + 1), name_names()) is Some {
                    lemma_first_match_stable(mv, name_names(), i + 1);
                }
                lemma_count0_first_none(mv.take(i + 1), name_names());
            }
            return None;
        }
        if !feed_opt_slot(&mut changed_s, m, k.eq(&n_changed), Ghost(mv.take(i as int)), Ghost(
            changed_names(),
        )) {
            proof {
                lemma_match_take_le(mv, changed_names(), i + 1);
                if first_match(mv.take(i + 1), changed_names()) is Some {
                    lemma_first_match_stable(mv, changed_names(), i + 1);
                }
                lemma_count0_first_none(mv.take(i + 1), changed_names());
            }
            return None;
        }
        i += 1;
    }
    proof {
        assert(mv.take(nm as int) =~= mv);
    }
    let org_id = match org_s {
        Some(s) => s,
        None => {
            return None;
        },
    };
    let country = match ctr_s {
        Some(s) => s,
        None => {
            return None;
        },
    };
    let source = match src_s {
        Some(s) => s,
        None => {
            return None;
        },
    };
    let data_type = match typ_s {
        Some(s) => s,
        None => {
            return None;
        },
    };
    let name = match name_s {
        Some(s) => s,
        None => String::new(),
    };
    let changed = match changed_s {
        Some(x) => x,
        None => None,
    };
    Some(OrgRecord { org_id, changed, name, country, source, data_type })
}

/// The marker that declares a line an AS record.
pub open spec fn asn_marker() -> Seq<char> {
    "\"type\":\"ASN\""@
}

/// The line, after encoding repair, declares itself an AS record.
pub open spec fn line_is_as(l: Seq<char>) -> bool {
    contains_sub(repair_text(l), asn_marker())
}

/// The members of the line after encoding repair, if it parses.
pub open spec fn line_members(l: Seq<char>) -> Option<Seq<(Seq<char>, JValueModel)>> {
    parse_object_spec(repair_text(l))
}

/// The members of the line after encoding repair.
pub open spec fn line_ms(l: Seq<char>) -> Seq<(Seq<char>, JValueModel)>
    recommends
        line_members(l) is Some,
{
    line_members(l)->Some_0
}

/// The line parses and fills the schema of its declared kind.
pub open spec fn line_ok(l: Seq<char>) -> bool {
    match line_members(l) {
        None => false,
        Some(ms) => if line_is_as(l) {
            as_fields_ok(ms)
        } else {
            org_fields_ok(ms)
        },
    }
}

/// The AS number text an AS line carries.
pub open spec fn line_asn_text(l: Seq<char>) -> Seq<char> {
    str_of(first_match(line_ms(l), asn_names()))
}

/// The AS number text is a decimal numeral fitting 32 bits.
pub open spec fn line_asn_ok(l: Seq<char>) -> bool {
    is_u32_numeral(line_asn_text(l))
}

/// The number an AS line's numeral stands for.
pub open spec fn line_asn_val(l: Seq<char>) -> u32 {
    dec_val(numeral_digits(line_asn_text(l))) as u32
}

/// The record content an AS line carries.
pub open spec fn line_as_view(l: Seq<char>) -> AsView {
    AsView {
        name: dflt_field_of(line_ms(l), name_names()),
        org_id: str_of(first_match(line_ms(l), org_id_names())),
        opaque_id: opt_field_of(line_ms(l), opaque_names()),
        changed: opt_field_of(line_ms(l), changed_names()),
        source: str_of(first_match(line_ms(l), source_names())),
        data_type: str_of(first_match(line_ms(l), type_names())),
    }
}

/// The identifier an organization line carries.
pub open spec fn line_org_id(l: Seq<char>) -> Seq<char> {
    str_of(first_match(line_ms(l), org_id_names()))
}

/// The record content an organization line carries.
pub open spec fn line_org_view(l: Seq<char>) -> OrgView {
    OrgView {
        name: dflt_field_of(line_ms(l), name_names()),
        country: str_of(first_match(line_ms(l), country_names())),
        changed: opt_field_of(line_ms(l), changed_names()),
        source: str_of(first_match(line_ms(l), source_names())),
        data_type: str_of(first_match(line_ms(l), org_type_names())),
    }
}

/// Every line parses and fills its schema.
pub open spec fn lines_records_ok(lines: Seq<String>) -> bool {
    forall|i: int| 0 <= i < lines.len() ==> line_ok((#[trigger] lines[i])@)
}

/// Every well-formed AS line carries a well-formed number.
pub open spec fn lines_asns_ok(lines: Seq<String>) -> bool {
    forall|i: int|
        0 <= i < lines.len() && line_ok((#[trigger] lines[i])@) && line_is_as(lines[i]@)
            ==> line_asn_ok(lines[i]@)
}

/// The AS map a line sequence stands for, the later line replacing the
/// earlier on a repeated AS number.
pub open spec fn as_map_of_lines(lines: Seq<String>) -> Map<u32, AsView>
    decreases lines.len(),
{
    if lines.len() == 0 {
        Map::empty()
    } else {
        let m = as_map_of_lines(lines.drop_last());
        let l = lines.last()@;
        if line_ok(l) && line_is_as(l) {
            m.insert(line_asn_val(l), line_as_view(l))
        } else {
            m
        }
    }
}

/// The organization map a line sequence stands for, the later line
/// replacing the earlier on a repeated identifier.
pub open spec fn org_map_of_lines(lines: Seq<String>) -> Map<Seq<char>, OrgView>
    decreases lines.len(),
{
    if lines.len() == 0 {
        Map::empty()
    } else {
        let m = org_map_of_lines(lines.drop_last());
        let l = lines.last()@;
        if line_ok(l) && !line_is_as(l) {
            m.insert(line_org_id(l), line_org_view(l))
        } else {
            m
        }
    }
}

/// The record is of the AS kind.
pub open spec fn rec_is_as(r: Record) -> bool {
    r matches Record::As(_)
}

/// Classifies and deserializes one line of the dataset: encoding repair,
/// then the marker decides the kind, then the kind's schema reads the
/// members. Nothing is returned when the line does not parse or does not
/// fill its schema.
pub fn parse_record_line(line: &str) -> (r: Option<Record>)
    ensures
        r is Some <==> line_ok(line@),
        r matches Some(rec) ==> (rec_is_as(rec) <==> line_is_as(line@)),
        r matches Some(rec) ==> match rec {
            Record::As(a) => a.asn@ == line_asn_text(line@) && as_view(a) == line_as_view(line@),
            Record::Org(o) => o.org_id@ == line_org_id(line@) && org_view(o) == line_org_view(
                line@,
            ),
        },
{
    let fixed = crate::repair::fix_latin1_misinterpretation(line);
    let chars = crate::text::str_to_chars(fixed.as_str());
    let marker = crate::text::str_to_chars("\"type\":\"ASN\"");
    let is_as = crate::text::contains_chars(&chars, &marker);
    match crate::json::parse_flat_object(&chars) {
        None => None,
        Some(ms) => {
            if is_as {
                match extract_as_record(&ms) {
                    Some(a) => {
                        proof {
                            assert(as_view(a) =~~= line_as_view(line@));
                        }
                        Some(Record::As(a))
                    },
                    None => None,
                }
            } else {
                match extract_org_record(&ms) {
                    Some(o) => {
                        proof {
                            assert(org_view(o) =~~= line_org_view(line@));
                        }
                        Some(Record::Org(o))
                    },
                    None => None,
                }
            }
        },
    }
}

} // verus!
