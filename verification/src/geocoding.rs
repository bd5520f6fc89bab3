//! The geocoding client and the enrichment pipeline: one free-text address
//! resolves to a coordinate pair or "not found" against a rate-limited
//! external oracle; enrichment walks the dataset, fills in missing
//! coordinates, aggregates per-record failures, and demands a pause between
//! consecutive outbound calls.

use vstd::prelude::*;
use vstd::string::StrSliceExecFns;
use vstd::string::StringExecFns;
use vstd::string::StringSliceAdditionalSpecFns;
use vstd::utf8::encode_utf8;
use crate::text::digit_char;
use crate::text::is_decimal_chars;
use crate::text::is_decimal_str;
use crate::inventory::TileInventory;
use crate::inventory::RecordModel;
use crate::inventory::RecordIdentity;
use crate::inventory::IdentityModel;
use crate::inventory::identity_of;
use crate::inventory::has_coords;
use crate::inventory::record_valid;
use crate::inventory::dataset_model;
use crate::inventory::dataset_valid;

verus! {

/// What the oracle answered for one address: a coordinate pair, or no
/// result at all. "Not found" is a valid terminal outcome, not an error.
#[derive(Clone, Debug)]
pub enum GeocodeResult {
    Found { lat: String, lon: String },
    NotFound,
}

/// Transport or protocol failure talking to the oracle, or a coordinate
/// in its answer that is not a plain decimal number.
#[derive(Clone, Debug)]
pub enum GeocodingError {
    Request { message: String },
    ParseCoordinate,
}

#[verifier::ext_equal]
pub enum GeocodingErrorModel {
    Request { message: Seq<char> },
    ParseCoordinate,
}

impl View for GeocodingError {
    type V = GeocodingErrorModel;

    open spec fn view(&self) -> GeocodingErrorModel {
        match self {
            GeocodingError::Request { message } => GeocodingErrorModel::Request {
                message: message@,
            },
            GeocodingError::ParseCoordinate => GeocodingErrorModel::ParseCoordinate,
        }
    }
}

/// One record whose geocoding failed, and why; enrichment collects these
/// and goes on with the rest.
#[derive(Clone, Debug)]
pub struct EnrichmentFailure {
    pub identity: RecordIdentity,
    pub cause: GeocodingError,
}

#[verifier::ext_equal]
pub struct FailureModel {
    pub identity: IdentityModel,
    pub cause: GeocodingErrorModel,
}

impl View for EnrichmentFailure {
    type V = FailureModel;

    open spec fn view(&self) -> FailureModel {
        FailureModel { identity: self.identity@, cause: self.cause@ }
    }
}

pub open spec fn failures_model(v: Seq<EnrichmentFailure>) -> Seq<FailureModel> {
    v.map_values(|f: EnrichmentFailure| f@)
}

/// A byte a URL query value may carry unescaped: ASCII alphanumerics and
/// `-`, `.`, `_`, `~`.
pub open spec fn unreserved_byte(b: u8) -> bool {
    (48 <= b && b <= 57) || (65 <= b && b <= 90) || (97 <= b && b <= 122) || b == 45 || b == 46
        || b == 95 || b == 126
}

/// Uppercase hexadecimal digit.
pub open spec fn hex_digit_char(d: int) -> char {
    if d < 10 {
        digit_char(d)
    } else if d == 10 {
        'A'
    } else if d == 11 {
        'B'
    } else if d == 12 {
        'C'
    } else if d == 13 {
        'D'
    } else if d == 14 {
        'E'
    } else {
        'F'
    }
}

/// Percent-encoding of a byte string: unreserved bytes stand as
/// themselves, every other byte as a percent escape in uppercase hex.
pub open spec fn url_encode_bytes(b: Seq<u8>) -> Seq<char>
    decreases b.len(),
{
    if b.len() == 0 {
        Seq::empty()
    } else {
        let rest = url_encode_bytes(b.drop_first());
        if unreserved_byte(b[0]) {
            seq![b[0] as char] + rest
        } else {
            seq!['%', hex_digit_char(b[0] as int / 16), hex_digit_char(b[0] as int % 16)] + rest
        }
    }
}

/// Percent-encodes one query value.
///
/// Relies on urlencoding::encode: over the UTF-8 bytes of the input it
/// keeps ASCII alphanumerics and `-`, `.`, `_`, `~`, and writes every
/// other byte as `%` plus two uppercase hex digits.
#[verifier::external_body]
fn url_encode(s: &str) -> (r: String)
    ensures
        r@ == url_encode_bytes(s.spec_bytes()),
{
    urlencoding::encode(s).into_owned()
}

/// The query submitted to the oracle: the street address plus the fixed
/// locality suffix of the dataset's home city.
pub fn build_query(street_address: &str) -> (r: String)
    ensures
        r@ == street_address@ + ", New Orleans"@,
{
    let mut q = String::from_str(street_address);
    q.append(", New Orleans");
    q
}

/// The oracle request URL for one query: fixed endpoint, JSON format, the
/// percent-encoded query, and a single-result limit.
pub open spec fn spec_geocode_url(query: Seq<char>) -> Seq<char> {
    "https://nominatim.openstreetmap.org/search?format=json&q="@ + url_encode_bytes(
        encode_utf8(query),
    ) + "&limit=1"@
}

pub fn build_geocode_url(query: &str) -> (r: String)
    ensures
        r@ == spec_geocode_url(query@),
{
    let mut u = String::from_str("https://nominatim.openstreetmap.org/search?format=json&q=");
    u.append(url_encode(query).as_str());
    u.append("&limit=1");
    proof {
        assert(u@ =~= spec_geocode_url(query@));
    }
    u
}

/// Interprets the oracle's answer: no element means not found; the first
/// element's string-encoded coordinates must both be plain decimal
/// numbers, else the answer is a protocol failure.
pub fn geocode_result_from_response(first: Option<(String, String)>) -> (r: Result<
    GeocodeResult,
    GeocodingError,
>)
    ensures
        match first {
            None => r == Ok::<GeocodeResult, GeocodingError>(GeocodeResult::NotFound),
            Some((lat, lon)) => {
                if is_decimal_chars(lat@) && is_decimal_chars(lon@) {
                    r == Ok::<GeocodeResult, GeocodingError>(GeocodeResult::Found { lat, lon })
                } else {
                    r == Err::<GeocodeResult, GeocodingError>(GeocodingError::ParseCoordinate)
                }
            },
        },
{
    match first {
        None => Ok(GeocodeResult::NotFound),
        Some((lat, lon)) => {
            if is_decimal_str(lat.as_str()) && is_decimal_str(lon.as_str()) {
                Ok(GeocodeResult::Found { lat, lon })
            } else {
                Err(GeocodingError::ParseCoordinate)
            }
        },
    }
}

/// A usable oracle outcome: found coordinates are plain decimal text.
pub open spec fn outcome_ok(o: Result<GeocodeResult, GeocodingError>) -> bool {
    match o {
        Ok(GeocodeResult::Found { lat, lon }) => is_decimal_chars(lat@) && is_decimal_chars(lon@),
        _ => true,
    }
}

pub open spec fn with_found_coords(r: RecordModel, lat: Seq<char>, lon: Seq<char>) -> RecordModel {
    RecordModel { latitude: Some(lat), longitude: Some(lon), ..r }
}

/// What one outcome does to the record it answers: found coordinates are
/// set, "not found" and failures leave the record unchanged.
pub open spec fn apply_outcome(r: RecordModel, o: Result<GeocodeResult, GeocodingError>) -> RecordModel {
    match o {
        Ok(GeocodeResult::Found { lat, lon }) => with_found_coords(r, lat@, lon@),
        _ => r,
    }
}

pub open spec fn outcome_failures(r: RecordModel, o: Result<GeocodeResult, GeocodingError>) -> Seq<
    FailureModel,
> {
    match o {
        Err(e) => seq![FailureModel { identity: identity_of(r), cause: e@ }],
        _ => Seq::empty(),
    }
}

/// How many records still lack coordinates: exactly the outbound calls an
/// enrichment run makes.
pub open spec fn spec_pending_count(d: Seq<RecordModel>) -> int
    decreases d.len(),
{
    if d.len() == 0 {
        0
    } else {
        (if has_coords(d[0]) {
            0int
        } else {
            1int
        }) + spec_pending_count(d.drop_first())
    }
}

/// The result of one enrichment run over a dataset and the outcomes its
/// calls returned, in record order.
#[verifier::ext_equal]
pub struct EnrichOutput {
    pub dataset: Seq<RecordModel>,
    pub failures: Seq<FailureModel>,
    pub used: int,
}

/// Enrichment, record by record: a record with coordinates is skipped and
/// consumes no outcome; a record without them consumes the next outcome,
/// and a failure is recorded without stopping the run.
pub open spec fn spec_enrich(
    d: Seq<RecordModel>,
    outs: Seq<Result<GeocodeResult, GeocodingError>>,
) -> EnrichOutput
    decreases d.len(),
{
    if d.len() == 0 {
        EnrichOutput { dataset: Seq::empty(), failures: Seq::empty(), used: 0 }
    } else if has_coords(d[0]) || outs.len() == 0 {
        let rest = spec_enrich(d.drop_first(), outs);
        EnrichOutput {
            dataset: seq![d[0]] + rest.dataset,
            failures: rest.failures,
            used: rest.used,
        }
    } else {
        let rest = spec_enrich(d.drop_first(), outs.drop_first());
        EnrichOutput {
            dataset: seq![apply_outcome(d[0], outs[0])] + rest.dataset,
            failures: outcome_failures(d[0], outs[0]) + rest.failures,
            used: 1 + rest.used,
        }
    }
}

proof fn lemma_pending_count_nonneg(d: Seq<RecordModel>)
    ensures
        0 <= spec_pending_count(d) <= d.len(),
    decreases d.len(),
{
    if d.len() > 0 {
        lemma_pending_count_nonneg(d.drop_first());
    }
}

/// Counts the records still lacking coordinates.
pub fn pending_count(inventory: &Vec<TileInventory>) -> (n: usize)
    requires
        dataset_valid(dataset_model(inventory@)),
    ensures
        n as int == spec_pending_count(dataset_model(inventory@)),
{
    let ghost d = dataset_model(inventory@);
    let mut n: usize = 0;
    let mut i: usize = 0;
    proof {
        assert(d.skip(0) =~= d);
    }
    while i < inventory.len()
        invariant
            i <= inventory@.len(),
            d == dataset_model(inventory@),
            d.len() == inventory@.len(),
            dataset_valid(d),
            n <= i,
            spec_pending_count(d) == n + spec_pending_count(d.skip(i as int)),
        decreases inventory@.len() - i,
    {
        proof {
            assert(d.skip(i as int)[0] == d[i as int]);
            assert(d.skip(i as int).drop_first() =~= d.skip(i as int + 1));
            assert(d[i as int] == inventory@[i as int]@);
        }
        if !inventory[i].has_coordinates() {
            n += 1;
        }
        i += 1;
    }
    proof {
        assert(d.skip(d.len() as int) =~= Seq::<RecordModel>::empty());
    }
    n
}

/// Copies a geocoding error.
fn clone_error(e: &GeocodingError) -> (r: GeocodingError)
    ensures
        r@ == e@,
{
    match e {
        GeocodingError::Request { message } => GeocodingError::Request {
            message: message.clone(),
        },
        GeocodingError::ParseCoordinate => GeocodingError::ParseCoordinate,
    }
}

/// Sets both coordinates of the record at `i` to the found pair.
fn set_found_coords(inventory: &mut Vec<TileInventory>, i: usize, lat: String, lon: String)
    requires
        i < old(inventory)@.len(),
    ensures
        final(inventory)@.len() == old(inventory)@.len(),
        dataset_model(final(inventory)@) == dataset_model(old(inventory)@).update(
            i as int,
            with_found_coords(dataset_model(old(inventory)@)[i as int], lat@, lon@),
        ),
{
    let ghost d0 = dataset_model(old(inventory)@);
    let rec = inventory.remove(i);
    let updated = TileInventory { latitude: Some(lat), longitude: Some(lon), ..rec };
    proof {
        assert(updated@ =~= with_found_coords(d0[i as int], lat@, lon@));
    }
    inventory.insert(i, updated);
    proof {
        assert(final(inventory)@ =~= old(inventory)@.update(i as int, updated));
        assert(dataset_model(final(inventory)@) =~= dataset_model(old(inventory)@).update(
            i as int,
            updated@,
        ));
    }
}

/// Enriches the dataset against a fixed list of oracle outcomes, one per
/// record lacking coordinates, in dataset order: deterministic, and the
/// heart of the pipeline. Found coordinates are written to the record;
/// "not found" leaves the record as it was; a failure is collected and the
/// run continues with the next record.
pub fn geocode_inventory(
    inventory: &mut Vec<TileInventory>,
    outcomes: &Vec<Result<GeocodeResult, GeocodingError>>,
) -> (failures: Vec<EnrichmentFailure>)
    requires
        dataset_valid(dataset_model(old(inventory)@)),
        spec_pending_count(dataset_model(old(inventory)@)) == outcomes@.len(),
        forall|i: int| 0 <= i < outcomes@.len() ==> outcome_ok(#[trigger] outcomes@[i]),
    ensures
        ({
            let out = spec_enrich(dataset_model(old(inventory)@), outcomes@);
            &&& dataset_model(final(inventory)@) == out.dataset
            &&& failures_model(failures@) == out.failures
            &&& out.used == outcomes@.len()
        }),
        dataset_valid(dataset_model(final(inventory)@)),
{
    let ghost d0 = dataset_model(old(inventory)@);
    let mut failures: Vec<EnrichmentFailure> = Vec::new();
    let mut i: usize = 0;
    let mut k: usize = 0;
    proof {
        assert(d0.skip(0) =~= d0);
        assert(outcomes@.skip(0) =~= outcomes@);
        assert(dataset_model(old(inventory)@).take(0) =~= Seq::<RecordModel>::empty());
        assert(failures_model(failures@) =~= Seq::<FailureModel>::empty());
        assert(Seq::<RecordModel>::empty() + spec_enrich(d0, outcomes@).dataset =~= spec_enrich(
            d0,
            outcomes@,
        ).dataset);
        assert(Seq::<FailureModel>::empty() + spec_enrich(d0, outcomes@).failures =~= spec_enrich(
            d0,
            outcomes@,
        ).failures);
    }
    while i < inventory.len()
        invariant
            i <= inventory@.len(),
            k <= outcomes@.len(),
            inventory@.len() == d0.len(),
            dataset_valid(dataset_model(inventory@)),
            dataset_model(inventory@).skip(i as int) == d0.skip(i as int),
            spec_pending_count(d0.skip(i as int)) == outcomes@.len() - k,
            forall|q: int| 0 <= q < outcomes@.len() ==> outcome_ok(#[trigger] outcomes@[q]),
            ({
                let full = spec_enrich(d0, outcomes@);
                let rest = spec_enrich(d0.skip(i as int), outcomes@.skip(k as int));
                &&& full.dataset == dataset_model(inventory@).take(i as int) + rest.dataset
                &&& full.failures == failures_model(failures@) + rest.failures
                &&& full.used == k + rest.used
            }),
        decreases inventory@.len() - i,
    {
        let ghost dcur = dataset_model(inventory@);
        proof {
            assert(d0.skip(i as int)[0] == d0[i as int]);
            assert(d0.skip(i as int).drop_first() =~= d0.skip(i as int + 1));
            assert(dcur.skip(i as int)[0] == dcur[i as int]);
            assert(dcur[i as int] == d0[i as int]);
            assert(dcur[i as int] == inventory@[i as int]@);
            lemma_pending_count_nonneg(d0.skip(i as int + 1));
        }
        if inventory[i].has_coordinates() {
            proof {
                assert(dcur.take(i as int + 1) =~= dcur.take(i as int).push(d0[i as int]));
                let rest = spec_enrich(d0.skip(i as int), outcomes@.skip(k as int));
                let rest2 = spec_enrich(d0.skip(i as int + 1), outcomes@.skip(k as int));
                assert(rest.dataset == seq![d0[i as int]] + rest2.dataset);
                assert(dcur.take(i as int) + rest.dataset =~= dcur.take(i as int + 1)
                    + rest2.dataset);
            }
            i += 1;
        } else {
            proof {
                assert(spec_pending_count(d0.skip(i as int)) >= 1);
                assert(k < outcomes@.len());
                assert(outcomes@.skip(k as int)[0] == outcomes@[k as int]);
                assert(outcomes@.skip(k as int).drop_first() =~= outcomes@.skip(k as int + 1));
                assert(outcome_ok(outcomes@[k as int]));
            }
            let ghost rest = spec_enrich(d0.skip(i as int), outcomes@.skip(k as int));
            let ghost rest2 = spec_enrich(d0.skip(i as int + 1), outcomes@.skip(k as int + 1));
            let ghost newm = apply_outcome(d0[i as int], outcomes@[k as int]);
            proof {
                assert(rest.dataset == seq![newm] + rest2.dataset);
                assert(rest.failures == outcome_failures(d0[i as int], outcomes@[k as int])
                    + rest2.failures);
                assert(rest.used == 1 + rest2.used);
            }
            match &outcomes[k] {
                Ok(GeocodeResult::Found { lat, lon }) => {
                    set_found_coords(inventory, i, lat.clone(), lon.clone());
                    proof {
                        assert(newm =~= dataset_model(inventory@)[i as int]);
                    }
                },
                Ok(GeocodeResult::NotFound) => {
                    proof {
                        assert(newm == d0[i as int]);
                    }
                },
                Err(e) => {
                    let ident = inventory[i].identity();
                    let ghost fails0 = failures_model(failures@);
                    failures.push(
                        EnrichmentFailure { identity: ident, cause: clone_error(e) },
                    );
                    proof {
                        assert(newm == d0[i as int]);
                        assert(failures_model(failures@) =~= fails0.push(
                            FailureModel {
                                identity: identity_of(d0[i as int]),
                                cause: e@,
                            },
                        ));
                        assert(fails0 + (outcome_failures(d0[i as int], outcomes@[k as int])
                            + rest2.failures) =~= failures_model(failures@) + rest2.failures);
                    }
                },
            }
            proof {
                let dnew = dataset_model(inventory@);
                assert(dnew.skip(i as int + 1) =~= d0.skip(i as int + 1));
                assert(dnew[i as int] == newm);
                assert(dnew.take(i as int + 1) =~= dcur.take(i as int).push(newm));
                assert(dnew.take(i as int) =~= dcur.take(i as int));
                assert(dcur.take(i as int) + rest.dataset =~= dnew.take(i as int + 1)
                    + rest2.dataset);
                assert(record_valid(newm));
                assert forall|q: int| 0 <= q < dnew.len() implies record_valid(
                    #[trigger] dnew[q],
                ) by {
                    if q != i as int {
                        assert(dnew[q] == dcur[q]);
                    }
                }
            }
            i += 1;
            proof {
                vstd::std_specs::vec::axiom_spec_len(outcomes);
            }
            k += 1;
        }
    }
    proof {
        assert(d0.skip(i as int).len() == 0);
        assert(d0.skip(i as int) =~= Seq::<RecordModel>::empty());
        assert(spec_pending_count(Seq::<RecordModel>::empty()) == 0);
        assert(k == outcomes@.len());
        let rest = spec_enrich(Seq::<RecordModel>::empty(), outcomes@.skip(k as int));
        assert(rest.dataset =~= Seq::<RecordModel>::empty());
        assert(rest.failures =~= Seq::<FailureModel>::empty());
        let full = spec_enrich(d0, outcomes@);
        assert(dataset_model(inventory@).take(i as int) =~= dataset_model(inventory@));
        assert(full.dataset == dataset_model(inventory@) + Seq::<RecordModel>::empty());
        assert(dataset_model(inventory@) + Seq::<RecordModel>::empty() =~= dataset_model(
            inventory@,
        ));
        assert(failures_model(failures@) + Seq::<FailureModel>::empty() =~= failures_model(
            failures@,
        ));
    }
    failures
}

/// Index of the first record at or after `i` that lacks coordinates, or
/// the length when none does.
pub open spec fn next_pending(d: Seq<RecordModel>, i: int) -> int
    decreases d.len() - i,
{
    if i >= d.len() {
        d.len() as int
    } else if !has_coords(d[i]) {
        i
    } else {
        next_pending(d, i + 1)
    }
}

proof fn lemma_next_pending(d: Seq<RecordModel>, i: int)
    requires
        0 <= i <= d.len(),
    ensures
        i <= next_pending(d, i) <= d.len(),
        next_pending(d, i) < d.len() ==> !has_coords(d[next_pending(d, i)]),
    decreases d.len() - i,
{
    if i < d.len() && has_coords(d[i]) {
        lemma_next_pending(d, i + 1);
    }
}

/// One step the runner must perform next: an outbound geocode call for
/// the record at `index`, a pause honoring the oracle's rate limit, or
/// nothing, the run being complete.
pub enum EnrichAction {
    Geocode { index: usize, url: String },
    Pause,
    Done,
}

/// The enrichment run as a state machine. The runner asks for the next
/// action, performs it — the outside call, the pause between calls — and
/// reports each outcome back; every decision stays here. Directly after a
/// reported call the machine never offers another one: a pause, or the
/// end of the run, always comes between. A run may be abandoned at any
/// point by finishing early; records already enriched are retained.
pub struct EnrichmentRun {
    pub records: Vec<TileInventory>,
    pub pos: usize,
    pub must_pause: bool,
    pub failures: Vec<EnrichmentFailure>,
}

impl EnrichmentRun {
    pub open spec fn model(&self) -> Seq<RecordModel> {
        dataset_model(self.records@)
    }

    pub open spec fn failures_seq(&self) -> Seq<FailureModel> {
        failures_model(self.failures@)
    }

    pub open spec fn wf(&self) -> bool {
        &&& dataset_valid(self.model())
        &&& self.pos as int <= self.model().len()
    }

    /// The record the next geocode call is for.
    pub open spec fn pending_index(&self) -> int {
        next_pending(self.model(), self.pos as int)
    }

    pub open spec fn is_done(&self) -> bool {
        self.pending_index() == self.model().len()
    }

    pub open spec fn offers_pause(&self) -> bool {
        !self.is_done() && self.must_pause
    }

    pub open spec fn offers_geocode(&self) -> bool {
        !self.is_done() && !self.must_pause
    }

    /// Begins an enrichment run over the dataset.
    pub fn start(records: Vec<TileInventory>) -> (r: Self)
        requires
            dataset_valid(dataset_model(records@)),
        ensures
            r.wf(),
            r.model() == dataset_model(records@),
            r.pos == 0,
            !r.must_pause,
            r.failures_seq() == Seq::<FailureModel>::empty(),
    {
        let r = EnrichmentRun { records, pos: 0, must_pause: false, failures: Vec::new() };
        proof {
            assert(r.failures_seq() =~= Seq::<FailureModel>::empty());
        }
        r
    }

    fn scan_pending(&self) -> (j: usize)
        requires
            self.wf(),
        ensures
            j as int == self.pending_index(),
            j <= self.records@.len(),
    {
        let mut j = self.pos;
        while j < self.records.len()
            invariant
                self.wf(),
                self.pos <= j,
                j as int <= self.model().len(),
                next_pending(self.model(), self.pos as int) == next_pending(
                    self.model(),
                    j as int,
                ),
            decreases self.model().len() - j,
        {
            proof {
                assert(self.model()[j as int] == self.records@[j as int]@);
            }
            if !self.records[j].has_coordinates() {
                return j;
            }
            j += 1;
        }
        j
    }

    /// What the runner must do next.
    pub fn next_action(&self) -> (a: EnrichAction)
        requires
            self.wf(),
        ensures
            self.is_done() ==> a is Done,
            self.offers_pause() ==> a is Pause,
            self.offers_geocode() ==> (a matches EnrichAction::Geocode { index, url } && index
                as int == self.pending_index() && url@ == spec_geocode_url(
                self.model()[self.pending_index()].street_address + ", New Orleans"@,
            )),
    {
        let j = self.scan_pending();
        if j == self.records.len() {
            EnrichAction::Done
        } else if self.must_pause {
            EnrichAction::Pause
        } else {
            proof {
                assert(self.model()[j as int] == self.records@[j as int]@);
            }
            let q = build_query(self.records[j].street_address.as_str());
            let url = build_geocode_url(q.as_str());
            EnrichAction::Geocode { index: j, url }
        }
    }

    /// Reports the outcome of the geocode call the machine asked for.
    /// Found coordinates are written to the record; "not found" leaves it
    /// unchanged; a failure is collected and the run goes on. Afterwards
    /// the machine never offers another call at once: a pause or the end
    /// of the run comes first.
    pub fn report_outcome(&mut self, outcome: Result<GeocodeResult, GeocodingError>)
        requires
            old(self).wf(),
            old(self).offers_geocode(),
            outcome_ok(outcome),
        ensures
            final(self).wf(),
            final(self).model() == old(self).model().update(
                old(self).pending_index(),
                apply_outcome(old(self).model()[old(self).pending_index()], outcome),
            ),
            final(self).pos as int == old(self).pending_index() + 1,
            final(self).must_pause,
            final(self).failures_seq() == old(self).failures_seq() + outcome_failures(
                old(self).model()[old(self).pending_index()],
                outcome,
            ),
            !final(self).offers_geocode(),
    {
        let j = self.scan_pending();
        proof {
            lemma_next_pending(self.model(), self.pos as int);
            assert((j as int) < self.model().len());
            assert(self.model()[j as int] == self.records@[j as int]@);
        }
        let ghost m0 = self.model();
        let ghost f0 = self.failures_seq();
        match outcome {
            Ok(GeocodeResult::Found { lat, lon }) => {
                let ghost latv = lat@;
                let ghost lonv = lon@;
                set_found_coords(&mut self.records, j, lat, lon);
                proof {
                    assert(self.model() == m0.update(
                        j as int,
                        apply_outcome(m0[j as int], Ok(GeocodeResult::Found { lat, lon })),
                    ));
                }
            },
            Ok(GeocodeResult::NotFound) => {
                proof {
                    assert(m0.update(j as int, m0[j as int]) =~= m0);
                }
            },
            Err(e) => {
                let ident = self.records[j].identity();
                self.failures.push(EnrichmentFailure { identity: ident, cause: e });
                proof {
                    assert(m0.update(j as int, m0[j as int]) =~= m0);
                    assert(self.failures_seq() =~= f0.push(
                        FailureModel { identity: identity_of(m0[j as int]), cause: e@ },
                    ));
                }
            },
        }
        proof {
            vstd::std_specs::vec::axiom_spec_len(&self.records);
        }
        self.pos = j + 1;
        self.must_pause = true;
        proof {
            let m = self.model();
            assert(record_valid(apply_outcome(m0[j as int], outcome)));
            assert forall|q: int| 0 <= q < m.len() implies record_valid(#[trigger] m[q]) by {
                if q != j as int {
                    assert(m[q] == m0[q]);
                }
            }
            assert(f0 + Seq::<FailureModel>::empty() =~= f0);
            if outcome is Err {
                assert(f0 + outcome_failures(m0[j as int], outcome) =~= f0.push(
                    FailureModel {
                        identity: identity_of(m0[j as int]),
                        cause: (outcome->Err_0)@,
                    },
                ));
            }
        }
    }

    /// Acknowledges the pause between consecutive outbound calls; only
    /// then does the machine offer the next call.
    pub fn acknowledge_pause(&mut self)
        requires
            old(self).wf(),
            old(self).offers_pause(),
        ensures
            final(self).wf(),
            final(self).model() == old(self).model(),
            final(self).pos == old(self).pos,
            !final(self).must_pause,
            final(self).failures_seq() == old(self).failures_seq(),
            final(self).offers_geocode(),
    {
        self.must_pause = false;
    }

    /// Ends the run, complete or abandoned, and hands back the records as
    /// they stand and the failures collected so far.
    pub fn finish(self) -> (r: (Vec<TileInventory>, Vec<EnrichmentFailure>))
        ensures
            dataset_model(r.0@) == self.model(),
            failures_model(r.1@) == self.failures_seq(),
    {
        (self.records, self.failures)
    }
}

/// A dataset whose records all carry coordinates is returned unchanged,
/// with no failures and no outcome consumed: already-coordinated records
/// never cost an oracle call.
pub proof fn lemma_enrich_skips_coordinated(
    d: Seq<RecordModel>,
    outs: Seq<Result<GeocodeResult, GeocodingError>>,
)
    requires
        forall|i: int| 0 <= i < d.len() ==> has_coords(#[trigger] d[i]),
    ensures
        spec_enrich(d, outs) == (EnrichOutput { dataset: d, failures: Seq::empty(), used: 0 }),
    decreases d.len(),
{
    if d.len() == 0 {
        assert(d =~= Seq::<RecordModel>::empty());
        assert(spec_enrich(d, outs) =~= (EnrichOutput {
            dataset: d,
            failures: Seq::empty(),
            used: 0,
        }));
    } else {
        assert forall|i: int| 0 <= i < d.drop_first().len() implies has_coords(
            #[trigger] d.drop_first()[i],
        ) by {
            assert(d.drop_first()[i] == d[i + 1]);
        }
        lemma_enrich_skips_coordinated(d.drop_first(), outs);
        assert(seq![d[0]] + d.drop_first() =~= d);
        assert(spec_enrich(d, outs) =~= (EnrichOutput {
            dataset: d,
            failures: Seq::empty(),
            used: 0,
        }));
    }
}

/// When every outcome of a run resolves to found coordinates, every record
/// of the result carries coordinates.
pub proof fn lemma_enrich_all_found(
    d: Seq<RecordModel>,
    outs: Seq<Result<GeocodeResult, GeocodingError>>,
)
    requires
        spec_pending_count(d) <= outs.len(),
        forall|k: int|
            0 <= k < outs.len() ==> (#[trigger] outs[k]) matches Ok(GeocodeResult::Found { .. }),
    ensures
        forall|i: int|
            0 <= i < spec_enrich(d, outs).dataset.len() ==> has_coords(
                #[trigger] spec_enrich(d, outs).dataset[i],
            ),
    decreases d.len(),
{
    lemma_pending_count_nonneg(d);
    if d.len() > 0 {
        let out = spec_enrich(d, outs);
        if has_coords(d[0]) {
            lemma_enrich_all_found(d.drop_first(), outs);
            assert forall|i: int| 0 <= i < out.dataset.len() implies has_coords(
                #[trigger] out.dataset[i],
            ) by {
                if i > 0 {
                    assert(out.dataset[i] == spec_enrich(d.drop_first(), outs).dataset[i - 1]);
                }
            }
        } else {
            lemma_pending_count_nonneg(d.drop_first());
            assert(spec_pending_count(d) >= 1);
            assert(outs.len() >= 1);
            assert(outs[0] matches Ok(GeocodeResult::Found { .. }));
            assert forall|k: int|
                0 <= k < outs.drop_first().len() implies (#[trigger] outs.drop_first()[k]) matches Ok(
                GeocodeResult::Found { .. }) by {
                assert(outs.drop_first()[k] == outs[k + 1]);
            }
            lemma_enrich_all_found(d.drop_first(), outs.drop_first());
            assert(has_coords(apply_outcome(d[0], outs[0])));
            assert forall|i: int| 0 <= i < out.dataset.len() implies has_coords(
                #[trigger] out.dataset[i],
            ) by {
                if i > 0 {
                    assert(out.dataset[i] == spec_enrich(
                        d.drop_first(),
                        outs.drop_first(),
                    ).dataset[i - 1]);
                }
            }
        }
    }
}

/// Enrichment idempotence: after a run whose outcomes all resolved,
/// running enrichment again changes nothing, records no failure, and
/// consumes no outcome at all.
pub proof fn lemma_enrich_idempotent(
    d: Seq<RecordModel>,
    outs: Seq<Result<GeocodeResult, GeocodingError>>,
    outs2: Seq<Result<GeocodeResult, GeocodingError>>,
)
    requires
        spec_pending_count(d) <= outs.len(),
        forall|k: int|
            0 <= k < outs.len() ==> (#[trigger] outs[k]) matches Ok(GeocodeResult::Found { .. }),
    ensures
        spec_enrich(spec_enrich(d, outs).dataset, outs2) == (EnrichOutput {
            dataset: spec_enrich(d, outs).dataset,
            failures: Seq::empty(),
            used: 0,
        }),
{
    lemma_enrich_all_found(d, outs);
    lemma_enrich_skips_coordinated(spec_enrich(d, outs).dataset, outs2);
}

} // verus!
