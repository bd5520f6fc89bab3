//! The record model: one inventory entry per decorative street-name tile,
//! its identity rule, and the validity invariants every dataset produced by
//! this crate maintains.

use vstd::prelude::*;
use crate::text::is_decimal_chars;

verus! {

/// One inventory entry.
///
/// Latitude and longitude hold the exact decimal text of the coordinate, so
/// writing and re-reading the tabular file loses no precision; both are
/// present or both absent, never one without the other.
#[derive(Clone, Debug)]
pub struct TileInventory {
    pub id: u32,
    pub street_sign: String,
    pub street_address: String,
    pub sign_condition: Option<String>,
    pub number_of_tiles_damaged: Option<u32>,
    pub photo_1: Option<String>,
    pub photo_2: Option<String>,
    pub photo_3: Option<String>,
    pub photo_4: Option<String>,
    pub photo_5: Option<String>,
    pub latitude: Option<String>,
    pub longitude: Option<String>,
}

/// Mathematical value of one record: every text field as its character
/// sequence.
#[verifier::ext_equal]
pub struct RecordModel {
    pub id: u32,
    pub street_sign: Seq<char>,
    pub street_address: Seq<char>,
    pub sign_condition: Option<Seq<char>>,
    pub number_of_tiles_damaged: Option<u32>,
    pub photo_1: Option<Seq<char>>,
    pub photo_2: Option<Seq<char>>,
    pub photo_3: Option<Seq<char>>,
    pub photo_4: Option<Seq<char>>,
    pub photo_5: Option<Seq<char>>,
    pub latitude: Option<Seq<char>>,
    pub longitude: Option<Seq<char>>,
}

impl View for TileInventory {
    type V = RecordModel;

    open spec fn view(&self) -> RecordModel {
        RecordModel {
            id: self.id,
            street_sign: self.street_sign@,
            street_address: self.street_address@,
            sign_condition: self.sign_condition.deep_view(),
            number_of_tiles_damaged: self.number_of_tiles_damaged,
            photo_1: self.photo_1.deep_view(),
            photo_2: self.photo_2.deep_view(),
            photo_3: self.photo_3.deep_view(),
            photo_4: self.photo_4.deep_view(),
            photo_5: self.photo_5.deep_view(),
            latitude: self.latitude.deep_view(),
            longitude: self.longitude.deep_view(),
        }
    }
}

/// The values of a whole dataset, in row order.
pub open spec fn dataset_model(d: Seq<TileInventory>) -> Seq<RecordModel> {
    d.map_values(|t: TileInventory| t@)
}

/// The identity triple: datasets may reuse ids across address corrections,
/// so identity is id together with both street texts.
#[verifier::ext_equal]
pub struct IdentityModel {
    pub id: u32,
    pub street_sign: Seq<char>,
    pub street_address: Seq<char>,
}

pub open spec fn identity_of(r: RecordModel) -> IdentityModel {
    IdentityModel { id: r.id, street_sign: r.street_sign, street_address: r.street_address }
}

/// The identity triple of one record, as an owned value.
#[derive(Clone, Debug)]
pub struct RecordIdentity {
    pub id: u32,
    pub street_sign: String,
    pub street_address: String,
}

impl View for RecordIdentity {
    type V = IdentityModel;

    open spec fn view(&self) -> IdentityModel {
        IdentityModel {
            id: self.id,
            street_sign: self.street_sign@,
            street_address: self.street_address@,
        }
    }
}

impl RecordIdentity {
    /// An owned copy of this identity.
    pub fn duplicate(&self) -> (r: RecordIdentity)
        ensures
            r@ == self@,
    {
        RecordIdentity {
            id: self.id,
            street_sign: self.street_sign.clone(),
            street_address: self.street_address.clone(),
        }
    }
}

/// An owned copy of an optional text field.
pub fn duplicate_opt_string(o: &Option<String>) -> (r: Option<String>)
    ensures
        r.deep_view() == o.deep_view(),
{
    match o {
        Some(s) => Some(s.clone()),
        None => None,
    }
}

impl TileInventory {
    /// An owned copy of this record.
    pub fn duplicate(&self) -> (r: TileInventory)
        ensures
            r@ == self@,
    {
        TileInventory {
            id: self.id,
            street_sign: self.street_sign.clone(),
            street_address: self.street_address.clone(),
            sign_condition: duplicate_opt_string(&self.sign_condition),
            number_of_tiles_damaged: self.number_of_tiles_damaged,
            photo_1: duplicate_opt_string(&self.photo_1),
            photo_2: duplicate_opt_string(&self.photo_2),
            photo_3: duplicate_opt_string(&self.photo_3),
            photo_4: duplicate_opt_string(&self.photo_4),
            photo_5: duplicate_opt_string(&self.photo_5),
            latitude: duplicate_opt_string(&self.latitude),
            longitude: duplicate_opt_string(&self.longitude),
        }
    }

    /// The identity triple of this record.
    pub fn identity(&self) -> (r: RecordIdentity)
        ensures
            r@ == identity_of(self@),
    {
        RecordIdentity {
            id: self.id,
            street_sign: self.street_sign.clone(),
            street_address: self.street_address.clone(),
        }
    }

    /// Whether this record carries coordinates.
    pub fn has_coordinates(&self) -> (r: bool)
        requires
            record_valid(self@),
        ensures
            r == has_coords(self@),
    {
        self.latitude.is_some()
    }
}

/// Equality compares exactly the identity triple, never the id alone.
impl PartialEq for TileInventory {
    fn eq(&self, other: &Self) -> (r: bool) {
        self.id == other.id && self.street_address == other.street_address
            && self.street_sign == other.street_sign
    }
}

impl Eq for TileInventory {

}

impl vstd::std_specs::cmp::PartialEqSpecImpl for TileInventory {
    open spec fn obeys_eq_spec() -> bool {
        true
    }

    open spec fn eq_spec(&self, other: &Self) -> bool {
        identity_of(self@) == identity_of(other@)
    }
}

impl PartialEq for RecordIdentity {
    fn eq(&self, other: &Self) -> (r: bool) {
        self.id == other.id && self.street_address == other.street_address
            && self.street_sign == other.street_sign
    }
}

impl Eq for RecordIdentity {

}

impl vstd::std_specs::cmp::PartialEqSpecImpl for RecordIdentity {
    open spec fn obeys_eq_spec() -> bool {
        true
    }

    open spec fn eq_spec(&self, other: &Self) -> bool {
        self@ == other@
    }
}

pub open spec fn opt_text_valid(o: Option<Seq<char>>) -> bool {
    match o {
        Some(t) => t.len() > 0,
        None => true,
    }
}

pub open spec fn has_coords(r: RecordModel) -> bool {
    r.latitude is Some && r.longitude is Some
}

/// Well-formedness of one record: required texts non-empty, optional texts
/// never the empty string, coordinates paired and in plain decimal shape.
pub open spec fn record_valid(r: RecordModel) -> bool {
    &&& r.street_sign.len() > 0
    &&& r.street_address.len() > 0
    &&& opt_text_valid(r.sign_condition)
    &&& opt_text_valid(r.photo_1)
    &&& opt_text_valid(r.photo_2)
    &&& opt_text_valid(r.photo_3)
    &&& opt_text_valid(r.photo_4)
    &&& opt_text_valid(r.photo_5)
    &&& (r.latitude is Some <==> r.longitude is Some)
    &&& match r.latitude {
        Some(t) => is_decimal_chars(t),
        None => true,
    }
    &&& match r.longitude {
        Some(t) => is_decimal_chars(t),
        None => true,
    }
}

pub open spec fn dataset_valid(d: Seq<RecordModel>) -> bool {
    forall|i: int| 0 <= i < d.len() ==> record_valid(#[trigger] d[i])
}

/// No two rows of one dataset share an identity triple.
pub open spec fn unique_identities(d: Seq<RecordModel>) -> bool {
    forall|i: int, j: int|
        0 <= i < j < d.len() ==> identity_of(#[trigger] d[i]) != identity_of(#[trigger] d[j])
}

pub open spec fn contains_identity(d: Seq<RecordModel>, ident: IdentityModel) -> bool {
    exists|i: int| 0 <= i < d.len() && identity_of(#[trigger] d[i]) == ident
}

/// Coordinates come in pairs: valid records never hold just one of
/// latitude and longitude.
pub proof fn lemma_coordinate_pairing(d: Seq<RecordModel>)
    requires
        dataset_valid(d),
    ensures
        forall|i: int|
            0 <= i < d.len() ==> ((#[trigger] d[i]).latitude is Some <==> d[i].longitude is Some),
{
}

/// Drops every record whose identity already occurred earlier: the
/// deterministic deduplication that keeps the first occurrence.
pub open spec fn dedup_first(d: Seq<RecordModel>) -> Seq<RecordModel>
    decreases d.len(),
{
    if d.len() == 0 {
        Seq::empty()
    } else {
        let prefix = dedup_first(d.drop_last());
        if contains_identity(d.drop_last(), identity_of(d.last())) {
            prefix
        } else {
            prefix.push(d.last())
        }
    }
}

/// On a dataset without duplicate identities, deduplication changes
/// nothing.
pub proof fn lemma_dedup_first_of_unique(d: Seq<RecordModel>)
    requires
        unique_identities(d),
    ensures
        dedup_first(d) == d,
    decreases d.len(),
{
    if d.len() > 0 {
        assert forall|i: int, j: int| 0 <= i < j < d.drop_last().len() implies identity_of(
            #[trigger] d.drop_last()[i],
        ) != identity_of(#[trigger] d.drop_last()[j]) by {
            assert(d.drop_last()[i] == d[i]);
            assert(d.drop_last()[j] == d[j]);
        }
        lemma_dedup_first_of_unique(d.drop_last());
        if contains_identity(d.drop_last(), identity_of(d.last())) {
            let i = choose|i: int|
                0 <= i < d.drop_last().len() && identity_of(d.drop_last()[i]) == identity_of(
                    d.last(),
                );
            assert(d.drop_last()[i] == d[i]);
            assert(identity_of(d[i]) == identity_of(d[d.len() - 1]));
            assert(false);
        }
        assert(dedup_first(d) == d.drop_last().push(d.last()));
        assert(d.drop_last().push(d.last()) =~= d);
    } else {
        assert(dedup_first(d) =~= d);
    }
}

pub proof fn lemma_dedup_first_contains(d: Seq<RecordModel>, ident: IdentityModel)
    ensures
        contains_identity(dedup_first(d), ident) == contains_identity(d, ident),
    decreases d.len(),
{
    if d.len() > 0 {
        lemma_dedup_first_contains(d.drop_last(), ident);
        let prefix = dedup_first(d.drop_last());
        if contains_identity(d, ident) {
            let i = choose|i: int| 0 <= i < d.len() && identity_of(#[trigger] d[i]) == ident;
            if i < d.len() - 1 {
                assert(d.drop_last()[i] == d[i]);
                assert(contains_identity(d.drop_last(), ident));
                let j = choose|j: int|
                    0 <= j < prefix.len() && identity_of(#[trigger] prefix[j]) == ident;
                assert(dedup_first(d)[j] == prefix[j] || dedup_first(d) == prefix);
                assert(contains_identity(dedup_first(d), ident));
            } else {
                if contains_identity(d.drop_last(), identity_of(d.last())) {
                    assert(contains_identity(d.drop_last(), ident));
                    let j = choose|j: int|
                        0 <= j < prefix.len() && identity_of(#[trigger] prefix[j]) == ident;
                    assert(contains_identity(dedup_first(d), ident));
                } else {
                    assert(dedup_first(d).last() == d.last());
                    assert(contains_identity(dedup_first(d), ident));
                }
            }
        }
        if contains_identity(dedup_first(d), ident) {
            let i = choose|i: int|
                0 <= i < dedup_first(d).len() && identity_of(#[trigger] dedup_first(d)[i]) == ident;
            if contains_identity(d.drop_last(), identity_of(d.last())) {
                assert(dedup_first(d) == prefix);
                assert(contains_identity(prefix, ident));
                let j = choose|j: int|
                    0 <= j < d.drop_last().len() && identity_of(#[trigger] d.drop_last()[j])
                        == ident;
                assert(d.drop_last()[j] == d[j]);
                assert(contains_identity(d, ident));
            } else {
                if i < prefix.len() {
                    assert(dedup_first(d)[i] == prefix[i]);
                    assert(contains_identity(prefix, ident));
                    let j = choose|j: int|
                        0 <= j < d.drop_last().len() && identity_of(#[trigger] d.drop_last()[j])
                            == ident;
                    assert(d.drop_last()[j] == d[j]);
                    assert(contains_identity(d, ident));
                } else {
                    assert(dedup_first(d)[i] == d.last());
                    assert(contains_identity(d, ident));
                }
            }
        }
    }
}

/// Deduplication leaves no duplicate identities behind.
pub proof fn lemma_dedup_first_unique(d: Seq<RecordModel>)
    ensures
        unique_identities(dedup_first(d)),
        dataset_valid(d) ==> dataset_valid(dedup_first(d)),
    decreases d.len(),
{
    if d.len() > 0 {
        lemma_dedup_first_unique(d.drop_last());
        let prefix = dedup_first(d.drop_last());
        if dataset_valid(d) {
            assert forall|i: int| 0 <= i < d.drop_last().len() implies record_valid(
                #[trigger] d.drop_last()[i],
            ) by {
                assert(d.drop_last()[i] == d[i]);
            }
        }
        if !contains_identity(d.drop_last(), identity_of(d.last())) {
            lemma_dedup_first_contains(d.drop_last(), identity_of(d.last()));
            let out = prefix.push(d.last());
            assert forall|i: int, j: int| 0 <= i < j < out.len() implies identity_of(
                #[trigger] out[i],
            ) != identity_of(#[trigger] out[j]) by {
                if j < out.len() - 1 {
                    assert(out[i] == prefix[i]);
                    assert(out[j] == prefix[j]);
                } else {
                    assert(out[i] == prefix[i]);
                    assert(out[j] == d.last());
                    if identity_of(prefix[i]) == identity_of(d.last()) {
                        assert(contains_identity(prefix, identity_of(d.last())));
                    }
                }
            }
            if dataset_valid(d) {
                assert forall|i: int| 0 <= i < out.len() implies record_valid(
                    #[trigger] out[i],
                ) by {
                    if i < out.len() - 1 {
                        assert(out[i] == prefix[i]);
                    } else {
                        assert(out[i] == d.last());
                        assert(d.last() == d[d.len() - 1]);
                    }
                }
            }
        }
    }
}

/// Whether `d` contains a record with identity `ident`, by linear search.
pub fn find_by_identity(d: &Vec<TileInventory>, ident: &RecordIdentity) -> (r: Option<usize>)
    ensures
        match r {
            Some(j) => j < d@.len() && identity_of(d@[j as int]@) == ident@,
            None => !contains_identity(dataset_model(d@), ident@),
        },
{
    let mut i: usize = 0;
    while i < d.len()
        invariant
            i <= d@.len(),
            forall|k: int| 0 <= k < i ==> identity_of(#[trigger] d@[k]@) != ident@,
        decreases d@.len() - i,
    {
        let cand = &d[i];
        if cand.id == ident.id && cand.street_sign == ident.street_sign
            && cand.street_address == ident.street_address {
            return Some(i);
        }
        i += 1;
    }
    proof {
        assert forall|k: int| 0 <= k < dataset_model(d@).len() implies identity_of(
            #[trigger] dataset_model(d@)[k],
        ) != ident@ by {
            assert(dataset_model(d@)[k] == d@[k]@);
        }
    }
    None
}

} // verus!
