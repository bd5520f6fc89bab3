//! The map-marker reconciliation engine: keeps the set of visual markers
//! exactly mirroring the records that carry coordinates, keyed by record
//! identity, and keeps the marker of the selected record highlighted.
//!
//! The engine owns every decision; the visual layer only carries out the
//! operations it emits. A marker whose record is unchanged gets no
//! operation at all: it keeps its pin and its click handler, so nothing
//! flickers. Selection changes restyle at most the two markers involved.

use vstd::prelude::*;
use crate::inventory::TileInventory;
use crate::inventory::RecordModel;
use crate::inventory::RecordIdentity;
use crate::inventory::IdentityModel;
use crate::inventory::identity_of;
use crate::inventory::has_coords;
use crate::inventory::record_valid;
use crate::inventory::dataset_model;
use crate::inventory::dataset_valid;
use crate::inventory::unique_identities;

verus! {

/// Marker appearance: the default pin, or the highlighted pin of the
/// selected record.
#[derive(Clone, Copy, Debug, PartialEq, Eq, Structural)]
pub enum MarkerStyle {
    Default,
    Highlighted,
}

/// One visual marker the engine tracks: which record it stands for, where
/// it sits, and the style it currently shows.
#[derive(Clone, Debug)]
pub struct MarkerState {
    pub identity: RecordIdentity,
    pub lat: String,
    pub lon: String,
    pub style: MarkerStyle,
}

#[verifier::ext_equal]
pub struct MarkerModel {
    pub identity: IdentityModel,
    pub lat: Seq<char>,
    pub lon: Seq<char>,
    pub style: MarkerStyle,
}

impl View for MarkerState {
    type V = MarkerModel;

    open spec fn view(&self) -> MarkerModel {
        MarkerModel {
            identity: self.identity@,
            lat: self.lat@,
            lon: self.lon@,
            style: self.style,
        }
    }
}

pub open spec fn markers_model(v: Seq<MarkerState>) -> Seq<MarkerModel> {
    v.map_values(|m: MarkerState| m@)
}

/// One operation on the visual layer. Creating a marker attaches its
/// click handler; moving one keeps pin and handler in place.
#[derive(Clone, Debug)]
pub enum MarkerOp {
    Create { identity: RecordIdentity, lat: String, lon: String, style: MarkerStyle },
    Move { identity: RecordIdentity, lat: String, lon: String },
    Remove { identity: RecordIdentity },
    SetStyle { identity: RecordIdentity, style: MarkerStyle },
}

#[verifier::ext_equal]
pub enum MarkerOpModel {
    Create { identity: IdentityModel, lat: Seq<char>, lon: Seq<char>, style: MarkerStyle },
    Move { identity: IdentityModel, lat: Seq<char>, lon: Seq<char> },
    Remove { identity: IdentityModel },
    SetStyle { identity: IdentityModel, style: MarkerStyle },
}

impl View for MarkerOp {
    type V = MarkerOpModel;

    open spec fn view(&self) -> MarkerOpModel {
        match self {
            MarkerOp::Create { identity, lat, lon, style } => MarkerOpModel::Create {
                identity: identity@,
                lat: lat@,
                lon: lon@,
                style: *style,
            },
            MarkerOp::Move { identity, lat, lon } => MarkerOpModel::Move {
                identity: identity@,
                lat: lat@,
                lon: lon@,
            },
            MarkerOp::Remove { identity } => MarkerOpModel::Remove { identity: identity@ },
            MarkerOp::SetStyle { identity, style } => MarkerOpModel::SetStyle {
                identity: identity@,
                style: *style,
            },
        }
    }
}

pub open spec fn ops_model(v: Seq<MarkerOp>) -> Seq<MarkerOpModel> {
    v.map_values(|o: MarkerOp| o@)
}

/// The record identity an operation is about.
pub open spec fn op_identity(o: MarkerOpModel) -> IdentityModel {
    match o {
        MarkerOpModel::Create { identity, .. } => identity,
        MarkerOpModel::Move { identity, .. } => identity,
        MarkerOpModel::Remove { identity } => identity,
        MarkerOpModel::SetStyle { identity, .. } => identity,
    }
}

pub open spec fn coord_lat(r: RecordModel) -> Seq<char> {
    match r.latitude {
        Some(t) => t,
        None => Seq::empty(),
    }
}

pub open spec fn coord_lon(r: RecordModel) -> Seq<char> {
    match r.longitude {
        Some(t) => t,
        None => Seq::empty(),
    }
}

/// The style a marker must show under the given selection.
pub open spec fn intended_style(ident: IdentityModel, selected: Option<IdentityModel>) -> MarkerStyle {
    if selected == Some(ident) {
        MarkerStyle::Highlighted
    } else {
        MarkerStyle::Default
    }
}

pub open spec fn marker_for(r: RecordModel, selected: Option<IdentityModel>) -> MarkerModel {
    MarkerModel {
        identity: identity_of(r),
        lat: coord_lat(r),
        lon: coord_lon(r),
        style: intended_style(identity_of(r), selected),
    }
}

/// The markers a dataset calls for: one per record with coordinates, in
/// dataset order, the selected one highlighted.
pub open spec fn markers_of_dataset(d: Seq<RecordModel>, selected: Option<IdentityModel>) -> Seq<
    MarkerModel,
>
    decreases d.len(),
{
    if d.len() == 0 {
        Seq::empty()
    } else {
        let rest = markers_of_dataset(d.drop_first(), selected);
        if has_coords(d[0]) {
            seq![marker_for(d[0], selected)] + rest
        } else {
            rest
        }
    }
}

/// Whether the dataset calls for a marker with this identity.
pub open spec fn marker_in_dataset(d: Seq<RecordModel>, ident: IdentityModel) -> bool {
    exists|i: int|
        0 <= i < d.len() && identity_of(#[trigger] d[i]) == ident && has_coords(d[i])
}

/// The removals: one per tracked marker whose record vanished from the
/// dataset or lost its coordinates, in marker order.
pub open spec fn removal_ops(ms: Seq<MarkerModel>, d: Seq<RecordModel>) -> Seq<MarkerOpModel>
    decreases ms.len(),
{
    if ms.len() == 0 {
        Seq::empty()
    } else {
        let rest = removal_ops(ms.drop_first(), d);
        if marker_in_dataset(d, ms[0].identity) {
            rest
        } else {
            seq![MarkerOpModel::Remove { identity: ms[0].identity }] + rest
        }
    }
}

/// Index of the first tracked marker with this identity.
pub open spec fn find_marker(ms: Seq<MarkerModel>, ident: IdentityModel) -> Option<int>
    decreases ms.len(),
{
    if ms.len() == 0 {
        None
    } else if ms[0].identity == ident {
        Some(0)
    } else {
        match find_marker(ms.drop_first(), ident) {
            None => None,
            Some(i) => Some(1 + i),
        }
    }
}

/// The creations and moves: walking the dataset in order, a record with
/// coordinates gets a new marker when none is tracked for its identity,
/// an in-place move when one is tracked at other coordinates, and nothing
/// when the tracked marker already sits right.
pub open spec fn upsert_ops(
    ms: Seq<MarkerModel>,
    d: Seq<RecordModel>,
    selected: Option<IdentityModel>,
) -> Seq<MarkerOpModel>
    decreases d.len(),
{
    if d.len() == 0 {
        Seq::empty()
    } else {
        let rest = upsert_ops(ms, d.drop_first(), selected);
        if !has_coords(d[0]) {
            rest
        } else {
            match find_marker(ms, identity_of(d[0])) {
                None => seq![
                    MarkerOpModel::Create {
                        identity: identity_of(d[0]),
                        lat: coord_lat(d[0]),
                        lon: coord_lon(d[0]),
                        style: intended_style(identity_of(d[0]), selected),
                    },
                ] + rest,
                Some(j) => {
                    if ms[j].lat == coord_lat(d[0]) && ms[j].lon == coord_lon(d[0]) {
                        rest
                    } else {
                        seq![
                            MarkerOpModel::Move {
                                identity: identity_of(d[0]),
                                lat: coord_lat(d[0]),
                                lon: coord_lon(d[0]),
                            },
                        ] + rest
                    }
                },
            }
        }
    }
}

/// The same markers with every style as the selection calls for.
pub open spec fn restyle(ms: Seq<MarkerModel>, selected: Option<IdentityModel>) -> Seq<
    MarkerModel,
> {
    ms.map_values(
        |m: MarkerModel| MarkerModel { style: intended_style(m.identity, selected), ..m },
    )
}

/// The style changes a new selection calls for: one per tracked marker
/// whose shown style differs from the intended one, in marker order.
pub open spec fn style_ops(ms: Seq<MarkerModel>, selected: Option<IdentityModel>) -> Seq<
    MarkerOpModel,
>
    decreases ms.len(),
{
    if ms.len() == 0 {
        Seq::empty()
    } else {
        let rest = style_ops(ms.drop_first(), selected);
        let want = intended_style(ms[0].identity, selected);
        if ms[0].style == want {
            rest
        } else {
            seq![MarkerOpModel::SetStyle { identity: ms[0].identity, style: want }] + rest
        }
    }
}

pub open spec fn unique_marker_identities(ms: Seq<MarkerModel>) -> bool {
    forall|i: int, j: int|
        0 <= i < j < ms.len() ==> (#[trigger] ms[i]).identity != (#[trigger] ms[j]).identity
}

pub open spec fn styles_intended(ms: Seq<MarkerModel>, selected: Option<IdentityModel>) -> bool {
    forall|i: int|
        0 <= i < ms.len() ==> (#[trigger] ms[i]).style == intended_style(ms[i].identity, selected)
}

proof fn lemma_markers_of_dataset_wf(d: Seq<RecordModel>, selected: Option<IdentityModel>)
    requires
        unique_identities(d),
    ensures
        unique_marker_identities(markers_of_dataset(d, selected)),
        styles_intended(markers_of_dataset(d, selected), selected),
        forall|i: int|
            0 <= i < markers_of_dataset(d, selected).len() ==> marker_in_dataset(
                d,
                (#[trigger] markers_of_dataset(d, selected)[i]).identity,
            ),
    decreases d.len(),
{
    if d.len() > 0 {
        assert forall|i: int, j: int| 0 <= i < j < d.drop_first().len() implies identity_of(
            #[trigger] d.drop_first()[i],
        ) != identity_of(#[trigger] d.drop_first()[j]) by {
            assert(d.drop_first()[i] == d[i + 1]);
            assert(d.drop_first()[j] == d[j + 1]);
        }
        lemma_markers_of_dataset_wf(d.drop_first(), selected);
        let ms = markers_of_dataset(d, selected);
        let rest = markers_of_dataset(d.drop_first(), selected);
        assert forall|i: int|
            0 <= i < rest.len() implies marker_in_dataset(d, (#[trigger] rest[i]).identity) by {
            assert(marker_in_dataset(d.drop_first(), rest[i].identity));
            let w = choose|w: int|
                0 <= w < d.drop_first().len() && identity_of(#[trigger] d.drop_first()[w])
                    == rest[i].identity && has_coords(d.drop_first()[w]);
            assert(d.drop_first()[w] == d[w + 1]);
            assert(identity_of(d[w + 1]) == rest[i].identity && has_coords(d[w + 1]));
        }
        if has_coords(d[0]) {
            assert(ms[0] == marker_for(d[0], selected));
            assert forall|i: int, j: int| 0 <= i < j < ms.len() implies (#[trigger] ms[i]).identity
                != (#[trigger] ms[j]).identity by {
                if i == 0 {
                    assert(ms[j] == rest[j - 1]);
                    assert(marker_in_dataset(d.drop_first(), rest[j - 1].identity));
                    let w = choose|w: int|
                        0 <= w < d.drop_first().len() && identity_of(#[trigger] d.drop_first()[w])
                            == rest[j - 1].identity && has_coords(d.drop_first()[w]);
                    assert(d.drop_first()[w] == d[w + 1]);
                    assert(identity_of(d[0]) != identity_of(d[w + 1]));
                } else {
                    assert(ms[i] == rest[i - 1]);
                    assert(ms[j] == rest[j - 1]);
                }
            }
            assert forall|i: int| 0 <= i < ms.len() implies (#[trigger] ms[i]).style
                == intended_style(ms[i].identity, selected) by {
                if i > 0 {
                    assert(ms[i] == rest[i - 1]);
                }
            }
            assert forall|i: int| 0 <= i < ms.len() implies marker_in_dataset(
                d,
                (#[trigger] ms[i]).identity,
            ) by {
                if i == 0 {
                    assert(identity_of(d[0]) == ms[0].identity && has_coords(d[0]));
                } else {
                    assert(ms[i] == rest[i - 1]);
                }
            }
        }
    }
}

/// A selection change touches at most the two markers involved: when the
/// shown styles match the old selection, every style operation the new
/// selection calls for names either the previously or the newly selected
/// identity. All other markers keep their style untouched.
pub proof fn lemma_selection_touches_at_most_two(
    ms: Seq<MarkerModel>,
    old_sel: Option<IdentityModel>,
    new_sel: Option<IdentityModel>,
)
    requires
        styles_intended(ms, old_sel),
    ensures
        forall|k: int|
            0 <= k < style_ops(ms, new_sel).len() ==> (Some(
                op_identity(#[trigger] style_ops(ms, new_sel)[k]),
            ) == old_sel || Some(op_identity(style_ops(ms, new_sel)[k])) == new_sel),
    decreases ms.len(),
{
    if ms.len() > 0 {
        assert forall|i: int| 0 <= i < ms.drop_first().len() implies (#[trigger] ms.drop_first()[
        i]).style == intended_style(ms.drop_first()[i].identity, old_sel) by {
            assert(ms.drop_first()[i] == ms[i + 1]);
        }
        lemma_selection_touches_at_most_two(ms.drop_first(), old_sel, new_sel);
        let want = intended_style(ms[0].identity, new_sel);
        let ops = style_ops(ms, new_sel);
        let rest = style_ops(ms.drop_first(), new_sel);
        assert(ms[0].style == intended_style(ms[0].identity, old_sel));
        if ms[0].style == want {
            assert(ops == rest);
        } else {
            assert(Some(ms[0].identity) == old_sel || Some(ms[0].identity) == new_sel);
            assert forall|k: int| 0 <= k < ops.len() implies (Some(
                op_identity(#[trigger] ops[k]),
            ) == old_sel || Some(op_identity(ops[k])) == new_sel) by {
                if k > 0 {
                    assert(ops[k] == rest[k - 1]);
                }
            }
        }
    }
}

proof fn lemma_removal_ops_not_in_dataset(ms: Seq<MarkerModel>, d: Seq<RecordModel>)
    ensures
        forall|k: int|
            0 <= k < removal_ops(ms, d).len() ==> !marker_in_dataset(
                d,
                op_identity(#[trigger] removal_ops(ms, d)[k]),
            ),
    decreases ms.len(),
{
    if ms.len() > 0 {
        lemma_removal_ops_not_in_dataset(ms.drop_first(), d);
        let ops = removal_ops(ms, d);
        let rest = removal_ops(ms.drop_first(), d);
        if !marker_in_dataset(d, ms[0].identity) {
            assert forall|k: int| 0 <= k < ops.len() implies !marker_in_dataset(
                d,
                op_identity(#[trigger] ops[k]),
            ) by {
                if k > 0 {
                    assert(ops[k] == rest[k - 1]);
                }
            }
        }
    }
}

proof fn lemma_upsert_ops_skip_unchanged(
    ms: Seq<MarkerModel>,
    d: Seq<RecordModel>,
    sel: Option<IdentityModel>,
    ident: IdentityModel,
)
    requires
        find_marker(ms, ident) matches Some(j) && (forall|w: int|
            0 <= w < d.len() && identity_of(#[trigger] d[w]) == ident ==> has_coords(d[w])
                && ms[j].lat == coord_lat(d[w]) && ms[j].lon == coord_lon(d[w])),
    ensures
        forall|k: int|
            0 <= k < upsert_ops(ms, d, sel).len() ==> op_identity(
                #[trigger] upsert_ops(ms, d, sel)[k],
            ) != ident,
    decreases d.len(),
{
    if d.len() > 0 {
        let jj: int = find_marker(ms, ident)->0;
        assert forall|w: int|
            0 <= w < d.drop_first().len() && identity_of(#[trigger] d.drop_first()[w])
                == ident implies has_coords(d.drop_first()[w]) && ms[jj].lat == coord_lat(
            d.drop_first()[w],
        ) && ms[jj].lon == coord_lon(d.drop_first()[w]) by {
            assert(d.drop_first()[w] == d[w + 1]);
        }
        lemma_upsert_ops_skip_unchanged(ms, d.drop_first(), sel, ident);
        let ops = upsert_ops(ms, d, sel);
        let rest = upsert_ops(ms, d.drop_first(), sel);
        if identity_of(d[0]) == ident {
            assert(has_coords(d[0]));
            assert(ms[jj].lat == coord_lat(d[0]) && ms[jj].lon == coord_lon(d[0]));
            lemma_find_marker_char(ms, ident);
            assert(ops == rest);
        } else {
            if !has_coords(d[0]) {
                assert(ops == rest);
            } else {
                assert forall|k: int| 0 <= k < ops.len() implies op_identity(
                    #[trigger] ops[k],
                ) != ident by {
                    if ops != rest && k > 0 {
                        assert(ops[k] == rest[k - 1]);
                    }
                    if ops != rest && k == 0 {
                        assert(op_identity(ops[0]) == identity_of(d[0]));
                    }
                }
            }
        }
    }
}

/// A record present before and after a dataset change, with unchanged
/// coordinates, keeps its marker untouched: reconciliation emits no
/// removal, creation or move naming its identity — its pin and click
/// handler survive as they are.
pub proof fn lemma_reconcile_leaves_unchanged(
    ms: Seq<MarkerModel>,
    d: Seq<RecordModel>,
    sel: Option<IdentityModel>,
    j: int,
    i: int,
)
    requires
        unique_marker_identities(ms),
        unique_identities(d),
        0 <= j < ms.len(),
        0 <= i < d.len(),
        ms[j].identity == identity_of(d[i]),
        has_coords(d[i]),
        ms[j].lat == coord_lat(d[i]),
        ms[j].lon == coord_lon(d[i]),
    ensures
        forall|k: int|
            0 <= k < removal_ops(ms, d).len() ==> op_identity(#[trigger] removal_ops(ms, d)[k])
                != ms[j].identity,
        forall|k: int|
            0 <= k < upsert_ops(ms, d, sel).len() ==> op_identity(
                #[trigger] upsert_ops(ms, d, sel)[k],
            ) != ms[j].identity,
{
    let ident = ms[j].identity;
    assert(marker_in_dataset(d, ident)) by {
        assert(identity_of(d[i]) == ident && has_coords(d[i]));
    }
    lemma_removal_ops_not_in_dataset(ms, d);
    lemma_find_marker_char(ms, ident);
    match find_marker(ms, ident) {
        None => {
            assert(ms[j].identity != ident);
            assert(false);
        },
        Some(w) => {
            assert(ms[w].identity == ident);
            if w != j {
                assert(ms[w].identity != ms[j].identity);
                assert(false);
            }
            assert forall|q: int|
                0 <= q < d.len() && identity_of(#[trigger] d[q]) == ident implies has_coords(d[q])
                    && ms[w].lat == coord_lat(d[q]) && ms[w].lon == coord_lon(d[q]) by {
                if q != i {
                    assert(identity_of(d[q]) != identity_of(d[i]));
                    assert(false);
                }
            }
            lemma_upsert_ops_skip_unchanged(ms, d, sel, ident);
        },
    }
}

/// Finds the first tracked marker with this identity.
fn find_marker_in(markers: &Vec<MarkerState>, ident: &RecordIdentity) -> (r: Option<usize>)
    ensures
        match r {
            Some(j) => j < markers@.len() && find_marker(markers_model(markers@), ident@) == Some(
                j as int,
            ),
            None => find_marker(markers_model(markers@), ident@) is None,
        },
{
    let ghost ms = markers_model(markers@);
    let mut j: usize = 0;
    while j < markers.len()
        invariant
            j <= markers@.len(),
            ms == markers_model(markers@),
            forall|k: int| 0 <= k < j ==> (#[trigger] ms[k]).identity != ident@,
        decreases markers@.len() - j,
    {
        if markers[j].identity.eq(ident) {
            proof {
                assert(ms[j as int].identity == ident@);
                lemma_find_marker_char(ms, ident@);
                match find_marker(ms, ident@) {
                    Some(w) => {
                        if w < j as int {
                            assert(ms[w].identity != ident@);
                        }
                        if w > j as int {
                            assert(ms[j as int].identity != ident@);
                        }
                    },
                    None => {
                        assert(ms[j as int].identity != ident@);
                    },
                }
            }
            return Some(j);
        }
        j += 1;
    }
    proof {
        lemma_find_marker_char(ms, ident@);
        match find_marker(ms, ident@) {
            Some(w) => {
                assert(ms[w].identity != ident@);
            },
            None => {},
        }
    }
    None
}

proof fn lemma_find_marker_char(ms: Seq<MarkerModel>, ident: IdentityModel)
    ensures
        match find_marker(ms, ident) {
            Some(i) => 0 <= i < ms.len() && ms[i].identity == ident && (forall|k: int|
                0 <= k < i ==> (#[trigger] ms[k]).identity != ident),
            None => forall|k: int| 0 <= k < ms.len() ==> (#[trigger] ms[k]).identity != ident,
        },
    decreases ms.len(),
{
    if ms.len() > 0 {
        lemma_find_marker_char(ms.drop_first(), ident);
        if ms[0].identity != ident {
            match find_marker(ms.drop_first(), ident) {
                Some(i) => {
                    assert(ms.drop_first()[i] == ms[i + 1]);
                    assert forall|k: int| 0 <= k < i + 1 implies (#[trigger] ms[k]).identity
                        != ident by {
                        if k > 0 {
                            assert(ms.drop_first()[k - 1] == ms[k]);
                        }
                    }
                },
                None => {
                    assert forall|k: int| 0 <= k < ms.len() implies (#[trigger] ms[k]).identity
                        != ident by {
                        if k > 0 {
                            assert(ms.drop_first()[k - 1] == ms[k]);
                        }
                    }
                },
            }
        }
    }
}

/// Whether the dataset calls for a marker with this identity.
fn dataset_has_marker(dataset: &Vec<TileInventory>, ident: &RecordIdentity) -> (r: bool)
    requires
        dataset_valid(dataset_model(dataset@)),
    ensures
        r == marker_in_dataset(dataset_model(dataset@), ident@),
{
    let ghost d = dataset_model(dataset@);
    let mut i: usize = 0;
    while i < dataset.len()
        invariant
            i <= dataset@.len(),
            d == dataset_model(dataset@),
            dataset_valid(d),
            forall|k: int|
                0 <= k < i ==> !(identity_of(#[trigger] d[k]) == ident@ && has_coords(d[k])),
        decreases dataset@.len() - i,
    {
        proof {
            assert(d[i as int] == dataset@[i as int]@);
        }
        let rec = &dataset[i];
        if rec.id == ident.id && rec.street_sign == ident.street_sign && rec.street_address
            == ident.street_address && rec.has_coordinates() {
            proof {
                assert(identity_of(d[i as int]) == ident@ && has_coords(d[i as int]));
            }
            return true;
        }
        i += 1;
    }
    proof {
        if marker_in_dataset(d, ident@) {
            let w = choose|w: int|
                0 <= w < d.len() && identity_of(#[trigger] d[w]) == ident@ && has_coords(d[w]);
            assert(false);
        }
    }
    false
}

/// The map view's reconciliation state: the tracked markers, keyed by
/// record identity, and the currently selected identity.
pub struct MapView {
    pub markers: Vec<MarkerState>,
    pub selected: Option<RecordIdentity>,
}

impl MapView {
    pub open spec fn markers_seq(&self) -> Seq<MarkerModel> {
        markers_model(self.markers@)
    }

    pub open spec fn selected_model(&self) -> Option<IdentityModel> {
        match self.selected {
            Some(i) => Some(i@),
            None => None,
        }
    }

    /// Well-formedness: one marker per identity, and every marker shows
    /// exactly the style the selection calls for.
    pub open spec fn wf(&self) -> bool {
        &&& unique_marker_identities(self.markers_seq())
        &&& styles_intended(self.markers_seq(), self.selected_model())
    }

    /// A fresh view: no markers, nothing selected.
    pub fn create() -> (r: Self)
        ensures
            r.wf(),
            r.markers_seq() == Seq::<MarkerModel>::empty(),
            r.selected_model() is None,
    {
        let r = MapView { markers: Vec::new(), selected: None };
        proof {
            assert(r.markers_seq() =~= Seq::<MarkerModel>::empty());
        }
        r
    }

    /// Reconciles the markers with a changed dataset. Afterwards the
    /// tracked markers are exactly those the dataset calls for; the
    /// emitted operations are exactly the removals for vanished or
    /// coordinate-less records, then, in dataset order, a creation for
    /// each new identity and an in-place move for each changed position —
    /// a marker whose record is unchanged is not touched.
    pub fn on_dataset_changed(&mut self, dataset: &Vec<TileInventory>) -> (ops: Vec<MarkerOp>)
        requires
            old(self).wf(),
            dataset_valid(dataset_model(dataset@)),
            unique_identities(dataset_model(dataset@)),
        ensures
            final(self).wf(),
            final(self).selected == old(self).selected,
            final(self).markers_seq() == markers_of_dataset(
                dataset_model(dataset@),
                old(self).selected_model(),
            ),
            ops_model(ops@) == removal_ops(old(self).markers_seq(), dataset_model(dataset@))
                + upsert_ops(
                old(self).markers_seq(),
                dataset_model(dataset@),
                old(self).selected_model(),
            ),
    {
        let ghost old_ms = self.markers_seq();
        let ghost d = dataset_model(dataset@);
        let ghost sel = self.selected_model();
        let mut ops: Vec<MarkerOp> = Vec::new();
        let mut i: usize = 0;
        proof {
            assert(old_ms.skip(0) =~= old_ms);
            assert(ops_model(ops@) =~= Seq::<MarkerOpModel>::empty());
            assert(Seq::<MarkerOpModel>::empty() + removal_ops(old_ms, d) =~= removal_ops(
                old_ms,
                d,
            ));
        }
        while i < self.markers.len()
            invariant
                i <= self.markers@.len(),
                old_ms == markers_model(self.markers@),
                d == dataset_model(dataset@),
                dataset_valid(d),
                self.markers@ == old(self).markers@,
                self.selected == old(self).selected,
                removal_ops(old_ms, d) == ops_model(ops@) + removal_ops(old_ms.skip(i as int), d),
            decreases self.markers@.len() - i,
        {
            proof {
                assert(old_ms.skip(i as int)[0] == old_ms[i as int]);
                assert(old_ms.skip(i as int).drop_first() =~= old_ms.skip(i as int + 1));
                assert(old_ms[i as int] == self.markers@[i as int]@);
            }
            let ghost ops0 = ops_model(ops@);
            if !dataset_has_marker(dataset, &self.markers[i].identity) {
                let ident = self.markers[i].identity.duplicate();
                ops.push(MarkerOp::Remove { identity: ident });
                proof {
                    assert(ops_model(ops@) =~= ops0.push(
                        MarkerOpModel::Remove { identity: old_ms[i as int].identity },
                    ));
                    assert(ops0 + (seq![
                        MarkerOpModel::Remove { identity: old_ms[i as int].identity },
                    ] + removal_ops(old_ms.skip(i as int + 1), d)) =~= ops_model(ops@)
                        + removal_ops(old_ms.skip(i as int + 1), d));
                }
            }
            i += 1;
        }
        proof {
            assert(old_ms.skip(i as int).len() == 0);
            assert(old_ms.skip(i as int) =~= Seq::<MarkerModel>::empty());
            assert(removal_ops(Seq::<MarkerModel>::empty(), d) =~= Seq::<MarkerOpModel>::empty());
            assert(ops_model(ops@) + Seq::<MarkerOpModel>::empty() =~= ops_model(ops@));
            assert(removal_ops(old_ms, d) == ops_model(ops@));
        }
        let mut new_markers: Vec<MarkerState> = Vec::new();
        let mut r: usize = 0;
        proof {
            assert(d.skip(0) =~= d);
            assert(markers_model(new_markers@) =~= Seq::<MarkerModel>::empty());
            assert(Seq::<MarkerModel>::empty() + markers_of_dataset(d, sel) =~= markers_of_dataset(
                d,
                sel,
            ));
            assert(ops_model(ops@) + upsert_ops(old_ms, d, sel) =~= removal_ops(old_ms, d)
                + upsert_ops(old_ms, d, sel));
        }
        while r < dataset.len()
            invariant
                r <= dataset@.len(),
                old_ms == markers_model(self.markers@),
                d == dataset_model(dataset@),
                d.len() == dataset@.len(),
                dataset_valid(d),
                sel == old(self).selected_model(),
                self.markers@ == old(self).markers@,
                self.selected == old(self).selected,
                markers_of_dataset(d, sel) == markers_model(new_markers@) + markers_of_dataset(
                    d.skip(r as int),
                    sel,
                ),
                removal_ops(old_ms, d) + upsert_ops(old_ms, d, sel) == ops_model(ops@)
                    + upsert_ops(old_ms, d.skip(r as int), sel),
            decreases dataset@.len() - r,
        {
            proof {
                assert(d.skip(r as int)[0] == d[r as int]);
                assert(d.skip(r as int).drop_first() =~= d.skip(r as int + 1));
                assert(d[r as int] == dataset@[r as int]@);
            }
            let rec = &dataset[r];
            if rec.has_coordinates() {
                let ident = rec.identity();
                let lat: String = match &rec.latitude {
                    Some(t) => t.clone(),
                    None => {
                        proof {
                            assert(false);
                        }
                        String::new()
                    },
                };
                let lon: String = match &rec.longitude {
                    Some(t) => t.clone(),
                    None => {
                        proof {
                            assert(false);
                        }
                        String::new()
                    },
                };
                let style = self.intended_style_of(&ident);
                let ghost ops0 = ops_model(ops@);
                let ghost nm0 = markers_model(new_markers@);
                match find_marker_in(&self.markers, &ident) {
                    None => {
                        ops.push(
                            MarkerOp::Create {
                                identity: ident.duplicate(),
                                lat: lat.clone(),
                                lon: lon.clone(),
                                style,
                            },
                        );
                        proof {
                            assert(ops_model(ops@) =~= ops0.push(
                                MarkerOpModel::Create {
                                    identity: identity_of(d[r as int]),
                                    lat: coord_lat(d[r as int]),
                                    lon: coord_lon(d[r as int]),
                                    style: intended_style(identity_of(d[r as int]), sel),
                                },
                            ));
                            assert(ops0 + (seq![
                                MarkerOpModel::Create {
                                    identity: identity_of(d[r as int]),
                                    lat: coord_lat(d[r as int]),
                                    lon: coord_lon(d[r as int]),
                                    style: intended_style(identity_of(d[r as int]), sel),
                                },
                            ] + upsert_ops(old_ms, d.skip(r as int + 1), sel)) =~= ops_model(ops@)
                                + upsert_ops(old_ms, d.skip(r as int + 1), sel));
                        }
                    },
                    Some(j) => {
                        if self.markers[j].lat.eq(&lat) && self.markers[j].lon.eq(&lon) {
                            proof {
                                assert(old_ms[j as int] == self.markers@[j as int]@);
                                assert(old_ms[j as int].lat == coord_lat(d[r as int]));
                                assert(old_ms[j as int].lon == coord_lon(d[r as int]));
                            }
                        } else {
                            ops.push(
                                MarkerOp::Move {
                                    identity: ident.duplicate(),
                                    lat: lat.clone(),
                                    lon: lon.clone(),
                                },
                            );
                            proof {
                                assert(old_ms[j as int] == self.markers@[j as int]@);
                                assert(!(old_ms[j as int].lat == coord_lat(d[r as int])
                                    && old_ms[j as int].lon == coord_lon(d[r as int])));
                                assert(ops_model(ops@) =~= ops0.push(
                                    MarkerOpModel::Move {
                                        identity: identity_of(d[r as int]),
                                        lat: coord_lat(d[r as int]),
                                        lon: coord_lon(d[r as int]),
                                    },
                                ));
                                assert(ops0 + (seq![
                                    MarkerOpModel::Move {
                                        identity: identity_of(d[r as int]),
                                        lat: coord_lat(d[r as int]),
                                        lon: coord_lon(d[r as int]),
                                    },
                                ] + upsert_ops(old_ms, d.skip(r as int + 1), sel)) =~= ops_model(
                                    ops@,
                                ) + upsert_ops(old_ms, d.skip(r as int + 1), sel));
                            }
                        }
                    },
                }
                new_markers.push(MarkerState { identity: ident, lat, lon, style });
                proof {
                    assert(markers_model(new_markers@) =~= nm0.push(marker_for(d[r as int], sel)));
                    assert(nm0 + (seq![marker_for(d[r as int], sel)] + markers_of_dataset(
                        d.skip(r as int + 1),
                        sel,
                    )) =~= markers_model(new_markers@) + markers_of_dataset(
                        d.skip(r as int + 1),
                        sel,
                    ));
                }
            }
            r += 1;
        }
        self.markers = new_markers;
        proof {
            assert(d.skip(r as int).len() == 0);
            assert(d.skip(r as int) =~= Seq::<RecordModel>::empty());
            assert(markers_of_dataset(Seq::<RecordModel>::empty(), sel) =~= Seq::<
                MarkerModel,
            >::empty());
            assert(upsert_ops(old_ms, Seq::<RecordModel>::empty(), sel) =~= Seq::<
                MarkerOpModel,
            >::empty());
            assert(markers_model(self.markers@) + Seq::<MarkerModel>::empty() =~= markers_model(
                self.markers@,
            ));
            assert(ops_model(ops@) + Seq::<MarkerOpModel>::empty() =~= ops_model(ops@));
            lemma_markers_of_dataset_wf(d, sel);
        }
        ops
    }

    /// Applies a selection change: the previously selected marker, if
    /// still tracked, reverts to the default style; the newly selected
    /// one, if tracked, is highlighted; no other marker is touched. The
    /// emitted operations are exactly the style changes. Selecting an
    /// identity with no marker is valid and touches no marker at all.
    pub fn on_selection_changed(&mut self, selected: Option<RecordIdentity>) -> (ops: Vec<
        MarkerOp,
    >)
        requires
            old(self).wf(),
        ensures
            final(self).wf(),
            final(self).selected_model() == (match selected {
                Some(i) => Some(i@),
                None => None::<IdentityModel>,
            }),
            final(self).markers_seq() == restyle(
                old(self).markers_seq(),
                final(self).selected_model(),
            ),
            ops_model(ops@) == style_ops(old(self).markers_seq(), final(self).selected_model()),
    {
        let ghost old_ms = self.markers_seq();
        self.selected = selected;
        let ghost sel = self.selected_model();
        let mut new_markers: Vec<MarkerState> = Vec::new();
        let mut ops: Vec<MarkerOp> = Vec::new();
        let mut i: usize = 0;
        proof {
            assert(old_ms.skip(0) =~= old_ms);
            assert(markers_model(new_markers@) =~= restyle(old_ms, sel).take(0));
            assert(ops_model(ops@) =~= Seq::<MarkerOpModel>::empty());
            assert(Seq::<MarkerOpModel>::empty() + style_ops(old_ms, sel) =~= style_ops(
                old_ms,
                sel,
            ));
        }
        while i < self.markers.len()
            invariant
                i <= self.markers@.len(),
                old_ms == markers_model(self.markers@),
                sel == self.selected_model(),
                markers_model(new_markers@) == restyle(old_ms, sel).take(i as int),
                style_ops(old_ms, sel) == ops_model(ops@) + style_ops(
                    old_ms.skip(i as int),
                    sel,
                ),
            decreases self.markers@.len() - i,
        {
            proof {
                assert(old_ms.skip(i as int)[0] == old_ms[i as int]);
                assert(old_ms.skip(i as int).drop_first() =~= old_ms.skip(i as int + 1));
                assert(old_ms[i as int] == self.markers@[i as int]@);
            }
            let ident = self.markers[i].identity.duplicate();
            let st = self.intended_style_of(&ident);
            let ghost ops0 = ops_model(ops@);
            let ghost nm0 = markers_model(new_markers@);
            if !(st == self.markers[i].style) {
                ops.push(MarkerOp::SetStyle { identity: ident.duplicate(), style: st });
                proof {
                    assert(ops_model(ops@) =~= ops0.push(
                        MarkerOpModel::SetStyle {
                            identity: old_ms[i as int].identity,
                            style: intended_style(old_ms[i as int].identity, sel),
                        },
                    ));
                    assert(ops0 + (seq![
                        MarkerOpModel::SetStyle {
                            identity: old_ms[i as int].identity,
                            style: intended_style(old_ms[i as int].identity, sel),
                        },
                    ] + style_ops(old_ms.skip(i as int + 1), sel)) =~= ops_model(ops@)
                        + style_ops(old_ms.skip(i as int + 1), sel));
                }
            }
            let lat = self.markers[i].lat.clone();
            let lon = self.markers[i].lon.clone();
            new_markers.push(MarkerState { identity: ident, lat, lon, style: st });
            proof {
                assert(restyle(old_ms, sel)[i as int] == (MarkerModel {
                    style: intended_style(old_ms[i as int].identity, sel),
                    ..old_ms[i as int]
                }));
                assert(markers_model(new_markers@) =~= nm0.push(restyle(old_ms, sel)[i as int]));
                assert(nm0.push(restyle(old_ms, sel)[i as int]) =~= restyle(old_ms, sel).take(
                    i as int + 1,
                ));
            }
            i += 1;
        }
        self.markers = new_markers;
        proof {
            assert(old_ms.skip(i as int).len() == 0);
            assert(old_ms.skip(i as int) =~= Seq::<MarkerModel>::empty());
            assert(style_ops(Seq::<MarkerModel>::empty(), sel) =~= Seq::<MarkerOpModel>::empty());
            assert(ops_model(ops@) + Seq::<MarkerOpModel>::empty() =~= ops_model(ops@));
            assert(restyle(old_ms, sel).take(i as int) =~= restyle(old_ms, sel));
            assert forall|a: int, b: int|
                0 <= a < b < self.markers_seq().len() implies (#[trigger] self.markers_seq()[
                a]).identity != (#[trigger] self.markers_seq()[b]).identity by {
                assert(self.markers_seq()[a].identity == old_ms[a].identity);
                assert(self.markers_seq()[b].identity == old_ms[b].identity);
            }
            assert forall|a: int| 0 <= a < self.markers_seq().len() implies (
            #[trigger] self.markers_seq()[a]).style == intended_style(
                self.markers_seq()[a].identity,
                self.selected_model(),
            ) by {
                assert(self.markers_seq()[a] == restyle(old_ms, sel)[a]);
            }
        }
        ops
    }

    /// The style the current selection calls for on this identity.
    fn intended_style_of(&self, ident: &RecordIdentity) -> (r: MarkerStyle)
        ensures
            r == intended_style(ident@, self.selected_model()),
    {
        match &self.selected {
            Some(s) => {
                if s.eq(ident) {
                    MarkerStyle::Highlighted
                } else {
                    MarkerStyle::Default
                }
            },
            None => MarkerStyle::Default,
        }
    }
}

} // verus!
