//! The analysis display's state: the two dropdown selections (street
//! sign, then street address) and the photo viewer's position, with the
//! selection they resolve to in the inventory.

use vstd::prelude::*;
use vstd::string::StringExecFns;
use crate::inventory::TileInventory;
use crate::inventory::RecordModel;
use crate::inventory::dataset_model;

verus! {

proof fn lemma_mod_shift(a: int, b: int, n: int)
    requires
        0 < n,
        0 <= b,
    ensures
        ((a % n) + b) % n == (a + b) % n,
{
    vstd::arithmetic::div_mod::lemma_add_mod_noop_right(b, a, n);
}

/// Messages the display reacts to.
pub enum Msg {
    StreetSelected(String),
    AddressSelected(String),
    NextPhoto,
    PreviousPhoto,
}

/// The display's own state.
pub struct AnalysisDisplay {
    pub selected_street: Option<String>,
    pub selected_address: Option<String>,
    pub current_photo_index: usize,
}

/// The present photo references of one record, in slot order.
pub open spec fn opt_photo(o: Option<Seq<char>>) -> Seq<Seq<char>> {
    match o {
        Some(t) => seq![t],
        None => Seq::empty(),
    }
}

pub open spec fn spec_photos(r: RecordModel) -> Seq<Seq<char>> {
    opt_photo(r.photo_1) + opt_photo(r.photo_2) + opt_photo(r.photo_3) + opt_photo(r.photo_4)
        + opt_photo(r.photo_5)
}

/// Index of the first record carrying this street sign and address.
pub open spec fn spec_find_by_streets(
    d: Seq<RecordModel>,
    sign: Seq<char>,
    addr: Seq<char>,
) -> Option<int>
    decreases d.len(),
{
    if d.len() == 0 {
        None
    } else if d[0].street_sign == sign && d[0].street_address == addr {
        Some(0)
    } else {
        match spec_find_by_streets(d.drop_first(), sign, addr) {
            None => None,
            Some(i) => Some(1 + i),
        }
    }
}

proof fn lemma_find_by_streets_char(d: Seq<RecordModel>, sign: Seq<char>, addr: Seq<char>)
    ensures
        match spec_find_by_streets(d, sign, addr) {
            Some(i) => 0 <= i < d.len() && d[i].street_sign == sign && d[i].street_address == addr
                && (forall|k: int|
                0 <= k < i ==> !((#[trigger] d[k]).street_sign == sign && d[k].street_address
                    == addr)),
            None => forall|k: int|
                0 <= k < d.len() ==> !((#[trigger] d[k]).street_sign == sign && d[k].street_address
                    == addr),
        },
    decreases d.len(),
{
    if d.len() > 0 {
        lemma_find_by_streets_char(d.drop_first(), sign, addr);
        if !(d[0].street_sign == sign && d[0].street_address == addr) {
            match spec_find_by_streets(d.drop_first(), sign, addr) {
                Some(i) => {
                    assert(d.drop_first()[i] == d[i + 1]);
                    assert forall|k: int| 0 <= k < i + 1 implies !((#[trigger] d[k]).street_sign
                        == sign && d[k].street_address == addr) by {
                        if k > 0 {
                            assert(d.drop_first()[k - 1] == d[k]);
                        }
                    }
                },
                None => {
                    assert forall|k: int| 0 <= k < d.len() implies !((#[trigger] d[k]).street_sign
                        == sign && d[k].street_address == addr) by {
                        if k > 0 {
                            assert(d.drop_first()[k - 1] == d[k]);
                        }
                    }
                },
            }
        }
    }
}

/// Finds the first record carrying this street sign and address, as the
/// dropdown pair resolves a selection.
pub fn find_by_streets(dataset: &Vec<TileInventory>, sign: &str, addr: &str) -> (r: Option<usize>)
    ensures
        match r {
            Some(j) => j < dataset@.len() && spec_find_by_streets(
                dataset_model(dataset@),
                sign@,
                addr@,
            ) == Some(j as int),
            None => spec_find_by_streets(dataset_model(dataset@), sign@, addr@) is None,
        },
{
    let ghost d = dataset_model(dataset@);
    let sign_owned = String::from_str(sign);
    let addr_owned = String::from_str(addr);
    let mut j: usize = 0;
    while j < dataset.len()
        invariant
            j <= dataset@.len(),
            d == dataset_model(dataset@),
            sign_owned@ == sign@,
            addr_owned@ == addr@,
            forall|k: int|
                0 <= k < j ==> !((#[trigger] d[k]).street_sign == sign@ && d[k].street_address
                    == addr@),
        decreases dataset@.len() - j,
    {
        proof {
            assert(d[j as int] == dataset@[j as int]@);
        }
        let rec = &dataset[j];
        if rec.street_sign.eq(&sign_owned) && rec.street_address.eq(&addr_owned) {
            proof {
                lemma_find_by_streets_char(d, sign@, addr@);
                match spec_find_by_streets(d, sign@, addr@) {
                    Some(w) => {
                        if w < j as int {
                            assert(!(d[w].street_sign == sign@ && d[w].street_address == addr@));
                        }
                        if w > j as int {
                            assert(!(d[j as int].street_sign == sign@ && d[j as int].street_address
                                == addr@));
                        }
                    },
                    None => {
                        assert(!(d[j as int].street_sign == sign@ && d[j as int].street_address
                            == addr@));
                    },
                }
            }
            return Some(j);
        }
        j += 1;
    }
    proof {
        lemma_find_by_streets_char(d, sign@, addr@);
        match spec_find_by_streets(d, sign@, addr@) {
            Some(w) => {
                assert(!(d[w].street_sign == sign@ && d[w].street_address == addr@));
            },
            None => {},
        }
    }
    None
}

/// The present photo references of one record, in slot order.
pub fn get_photos(item: &TileInventory) -> (r: Vec<String>)
    ensures
        r@.map_values(|s: String| s@) == spec_photos(item@),
        r@.len() <= 5,
{
    let mut v: Vec<String> = Vec::new();
    match &item.photo_1 {
        Some(p) => v.push(p.clone()),
        None => {},
    }
    match &item.photo_2 {
        Some(p) => v.push(p.clone()),
        None => {},
    }
    match &item.photo_3 {
        Some(p) => v.push(p.clone()),
        None => {},
    }
    match &item.photo_4 {
        Some(p) => v.push(p.clone()),
        None => {},
    }
    match &item.photo_5 {
        Some(p) => v.push(p.clone()),
        None => {},
    }
    proof {
        assert(v@.map_values(|s: String| s@) =~= spec_photos(item@));
    }
    v
}

pub open spec fn seq_contains_text(q: Seq<Seq<char>>, t: Seq<char>) -> bool {
    exists|k: int| 0 <= k < q.len() && #[trigger] q[k] == t
}

pub open spec fn contains_sign(d: Seq<RecordModel>, sign: Seq<char>) -> bool {
    exists|k: int| 0 <= k < d.len() && (#[trigger] d[k]).street_sign == sign
}

/// The distinct street signs of the dataset, first occurrences first: the
/// street dropdown's entries, in a deterministic order.
pub open spec fn spec_street_signs(d: Seq<RecordModel>) -> Seq<Seq<char>>
    decreases d.len(),
{
    if d.len() == 0 {
        Seq::empty()
    } else {
        let p = spec_street_signs(d.drop_last());
        if contains_sign(d.drop_last(), d.last().street_sign) {
            p
        } else {
            p.push(d.last().street_sign)
        }
    }
}

/// The addresses of the records carrying this street sign, in dataset
/// order: the address dropdown's entries.
pub open spec fn spec_addresses_for(d: Seq<RecordModel>, sign: Seq<char>) -> Seq<Seq<char>>
    decreases d.len(),
{
    if d.len() == 0 {
        Seq::empty()
    } else {
        let p = spec_addresses_for(d.drop_last(), sign);
        if d.last().street_sign == sign {
            p.push(d.last().street_address)
        } else {
            p
        }
    }
}

proof fn lemma_street_signs_contains(d: Seq<RecordModel>, sign: Seq<char>)
    ensures
        seq_contains_text(spec_street_signs(d), sign) == contains_sign(d, sign),
    decreases d.len(),
{
    if d.len() > 0 {
        lemma_street_signs_contains(d.drop_last(), sign);
        let p = spec_street_signs(d.drop_last());
        if contains_sign(d, sign) {
            let w = choose|w: int| 0 <= w < d.len() && (#[trigger] d[w]).street_sign == sign;
            if w < d.len() - 1 {
                assert(d.drop_last()[w] == d[w]);
                assert(contains_sign(d.drop_last(), sign));
                let k = choose|k: int| 0 <= k < p.len() && #[trigger] p[k] == sign;
                assert(spec_street_signs(d)[k] == sign);
                assert(seq_contains_text(spec_street_signs(d), sign));
            } else {
                if contains_sign(d.drop_last(), d.last().street_sign) {
                    let k = choose|k: int| 0 <= k < p.len() && #[trigger] p[k] == sign;
                    assert(spec_street_signs(d)[k] == sign);
                } else {
                    assert(spec_street_signs(d).last() == d.last().street_sign);
                }
                assert(seq_contains_text(spec_street_signs(d), sign));
            }
        }
        if seq_contains_text(spec_street_signs(d), sign) {
            let k = choose|k: int|
                0 <= k < spec_street_signs(d).len() && #[trigger] spec_street_signs(d)[k] == sign;
            if k < p.len() {
                assert(spec_street_signs(d)[k] == p[k]);
                assert(seq_contains_text(p, sign));
                let w = choose|w: int|
                    0 <= w < d.drop_last().len() && (#[trigger] d.drop_last()[w]).street_sign
                        == sign;
                assert(d.drop_last()[w] == d[w]);
                assert(contains_sign(d, sign));
            } else {
                assert(spec_street_signs(d)[k] == d.last().street_sign);
                assert(d[d.len() - 1].street_sign == sign);
                assert(contains_sign(d, sign));
            }
        }
    }
}

/// Whether the list already holds this text.
fn vec_contains_string(v: &Vec<String>, s: &String) -> (r: bool)
    ensures
        r == seq_contains_text(v@.map_values(|t: String| t@), s@),
{
    let ghost q = v@.map_values(|t: String| t@);
    let mut i: usize = 0;
    while i < v.len()
        invariant
            i <= v@.len(),
            q == v@.map_values(|t: String| t@),
            forall|k: int| 0 <= k < i ==> #[trigger] q[k] != s@,
        decreases v@.len() - i,
    {
        if v[i].eq(s) {
            proof {
                assert(q[i as int] == s@);
            }
            return true;
        }
        i += 1;
    }
    proof {
        if seq_contains_text(q, s@) {
            let k = choose|k: int| 0 <= k < q.len() && #[trigger] q[k] == s@;
            assert(false);
        }
    }
    false
}

/// The distinct street signs of the inventory, first occurrences first.
pub fn street_signs(inventory: &Vec<TileInventory>) -> (r: Vec<String>)
    ensures
        r@.map_values(|t: String| t@) == spec_street_signs(dataset_model(inventory@)),
{
    let ghost d = dataset_model(inventory@);
    let mut out: Vec<String> = Vec::new();
    let mut i: usize = 0;
    proof {
        assert(out@.map_values(|t: String| t@) =~= spec_street_signs(d.take(0)));
    }
    while i < inventory.len()
        invariant
            i <= inventory@.len(),
            d == dataset_model(inventory@),
            d.len() == inventory@.len(),
            out@.map_values(|t: String| t@) == spec_street_signs(d.take(i as int)),
        decreases inventory@.len() - i,
    {
        proof {
            assert(d[i as int] == inventory@[i as int]@);
            assert(d.take(i as int + 1).drop_last() =~= d.take(i as int));
            assert(d.take(i as int + 1).last() == d[i as int]);
        }
        let ghost out0 = out@.map_values(|t: String| t@);
        let sign = &inventory[i].street_sign;
        if !vec_contains_string(&out, sign) {
            proof {
                lemma_street_signs_contains(d.take(i as int), sign@);
            }
            out.push(sign.clone());
            proof {
                assert(out@.map_values(|t: String| t@) =~= out0.push(d[i as int].street_sign));
            }
        } else {
            proof {
                lemma_street_signs_contains(d.take(i as int), sign@);
            }
        }
        i += 1;
    }
    proof {
        assert(d.take(d.len() as int) =~= d);
    }
    out
}

/// The addresses of the records carrying this street sign, in dataset
/// order.
pub fn addresses_for_street(inventory: &Vec<TileInventory>, street: &str) -> (r: Vec<String>)
    ensures
        r@.map_values(|t: String| t@) == spec_addresses_for(dataset_model(inventory@), street@),
{
    let ghost d = dataset_model(inventory@);
    let street_owned = String::from_str(street);
    let mut out: Vec<String> = Vec::new();
    let mut i: usize = 0;
    proof {
        assert(out@.map_values(|t: String| t@) =~= spec_addresses_for(d.take(0), street@));
    }
    while i < inventory.len()
        invariant
            i <= inventory@.len(),
            d == dataset_model(inventory@),
            d.len() == inventory@.len(),
            street_owned@ == street@,
            out@.map_values(|t: String| t@) == spec_addresses_for(d.take(i as int), street@),
        decreases inventory@.len() - i,
    {
        proof {
            assert(d[i as int] == inventory@[i as int]@);
            assert(d.take(i as int + 1).drop_last() =~= d.take(i as int));
            assert(d.take(i as int + 1).last() == d[i as int]);
        }
        let ghost out0 = out@.map_values(|t: String| t@);
        let rec = &inventory[i];
        if rec.street_sign.eq(&street_owned) {
            out.push(rec.street_address.clone());
            proof {
                assert(out@.map_values(|t: String| t@) =~= out0.push(d[i as int].street_address));
            }
        }
        i += 1;
    }
    proof {
        assert(d.take(d.len() as int) =~= d);
    }
    out
}

impl AnalysisDisplay {
    /// A fresh display: nothing chosen, the photo viewer at the start.
    pub fn create() -> (r: Self)
        ensures
            r.selected_street is None,
            r.selected_address is None,
            r.current_photo_index == 0,
    {
        AnalysisDisplay { selected_street: None, selected_address: None, current_photo_index: 0 }
    }

    /// The record the two dropdowns currently resolve to: the first one
    /// matching both choices, or nothing while either is unset.
    pub fn notify_selection(&self, inventory: &Vec<TileInventory>) -> (r: Option<usize>)
        ensures
            match (self.selected_street, self.selected_address) {
                (Some(sign), Some(addr)) => (match r {
                    Some(j) => j < inventory@.len() && spec_find_by_streets(
                        dataset_model(inventory@),
                        sign@,
                        addr@,
                    ) == Some(j as int),
                    None => spec_find_by_streets(dataset_model(inventory@), sign@, addr@) is None,
                }),
                _ => r is None,
            },
{
        match (&self.selected_street, &self.selected_address) {
            (Some(sign), Some(addr)) => find_by_streets(inventory, sign.as_str(), addr.as_str()),
            _ => None,
        }
    }

    /// Handles one message, as the display does: choosing a street sign
    /// clears the address and rewinds the photos; choosing an address
    /// rewinds the photos; both report the selection the dropdowns now
    /// resolve to, for the owner to apply. The photo buttons cycle
    /// through the selected item's photos. The result says whether the
    /// display changed, and carries the selection to emit, if any.
    pub fn update(
        &mut self,
        inventory: &Vec<TileInventory>,
        selected_item: &Option<TileInventory>,
        msg: Msg,
    ) -> (r: (bool, Option<Option<usize>>))
        ensures
            match msg {
                Msg::StreetSelected(street) => {
                    &&& final(self).selected_street matches Some(s) && s@ == street@
                    &&& final(self).selected_address is None
                    &&& final(self).current_photo_index == 0
                    &&& r.0
                    &&& r.1 matches Some(emitted) && emitted is None
                },
                Msg::AddressSelected(addr) => {
                    &&& final(self).selected_street == old(self).selected_street
                    &&& final(self).selected_address matches Some(a) && a@ == addr@
                    &&& final(self).current_photo_index == 0
                    &&& r.0
                    &&& r.1 matches Some(emitted) && (match (
                        old(self).selected_street,
                        final(self).selected_address,
                    ) {
                        (Some(sign), Some(a2)) => (match emitted {
                            Some(j) => j < inventory@.len() && spec_find_by_streets(
                                dataset_model(inventory@),
                                sign@,
                                a2@,
                            ) == Some(j as int),
                            None => spec_find_by_streets(
                                dataset_model(inventory@),
                                sign@,
                                a2@,
                            ) is None,
                        }),
                        _ => emitted is None,
                    })
                },
                Msg::NextPhoto => {
                    &&& r.1 is None
                    &&& final(self).selected_street == old(self).selected_street
                    &&& final(self).selected_address == old(self).selected_address
                    &&& (match selected_item {
                        Some(item) => {
                            let n = spec_photos(item@).len();
                            if n > 0 {
                                r.0 && final(self).current_photo_index as int == (old(
                                    self,
                                ).current_photo_index + 1) % (n as int)
                            } else {
                                !r.0 && final(self).current_photo_index == old(
                                    self,
                                ).current_photo_index
                            }
                        },
                        None => !r.0 && final(self).current_photo_index == old(
                            self,
                        ).current_photo_index,
                    })
                },
                Msg::PreviousPhoto => {
                    &&& r.1 is None
                    &&& final(self).selected_street == old(self).selected_street
                    &&& final(self).selected_address == old(self).selected_address
                    &&& (match selected_item {
                        Some(item) => {
                            let n = spec_photos(item@).len();
                            if n > 0 {
                                r.0 && final(self).current_photo_index as int == (old(
                                    self,
                                ).current_photo_index + n - 1) % (n as int)
                            } else {
                                !r.0 && final(self).current_photo_index == old(
                                    self,
                                ).current_photo_index
                            }
                        },
                        None => !r.0 && final(self).current_photo_index == old(
                            self,
                        ).current_photo_index,
                    })
                },
            },
    {
        match msg {
            Msg::StreetSelected(street) => {
                self.selected_street = Some(street);
                self.selected_address = None;
                self.current_photo_index = 0;
                let sel = self.notify_selection(inventory);
                proof {
                    assert(sel is None);
                }
                (true, Some(sel))
            },
            Msg::AddressSelected(addr) => {
                self.selected_address = Some(addr);
                self.current_photo_index = 0;
                let sel = self.notify_selection(inventory);
                (true, Some(sel))
            },
            Msg::NextPhoto => {
                match selected_item {
                    Some(item) => {
                        let photos = get_photos(item);
                        let n = photos.len();
                        proof {
                            assert(photos@.map_values(|s: String| s@).len() == photos@.len());
                        }
                        if n > 0 {
                            let idx0 = self.current_photo_index % n;
                            proof {
                                lemma_mod_shift(
                                    old(self).current_photo_index as int,
                                    1,
                                    n as int,
                                );
                            }
                            self.current_photo_index = (idx0 + 1) % n;
                            (true, None)
                        } else {
                            (false, None)
                        }
                    },
                    None => (false, None),
                }
            },
            Msg::PreviousPhoto => {
                match selected_item {
                    Some(item) => {
                        let photos = get_photos(item);
                        let n = photos.len();
                        proof {
                            assert(photos@.map_values(|s: String| s@).len() == photos@.len());
                        }
                        if n > 0 {
                            let idx0 = self.current_photo_index % n;
                            proof {
                                lemma_mod_shift(
                                    old(self).current_photo_index as int,
                                    n as int - 1,
                                    n as int,
                                );
                            }
                            self.current_photo_index = (idx0 + n - 1) % n;
                            (true, None)
                        } else {
                            (false, None)
                        }
                    },
                    None => (false, None),
                }
            },
        }
    }

    /// Reacts to the owner's selection changing: a selected item fills
    /// both dropdowns with its streets and rewinds the photo viewer.
    pub fn changed(&mut self, selected_item: &Option<TileInventory>) -> (r: bool)
        ensures
            match selected_item {
                Some(item) => {
                    &&& r
                    &&& final(self).selected_street matches Some(s) && s@ == item@.street_sign
                    &&& final(self).selected_address matches Some(a) && a@ == item@.street_address
                    &&& final(self).current_photo_index == 0
                },
                None => *final(self) == *old(self) && !r,
            },
    {
        match selected_item {
            Some(item) => {
                self.selected_street = Some(item.street_sign.clone());
                self.selected_address = Some(item.street_address.clone());
                self.current_photo_index = 0;
                true
            },
            None => false,
        }
    }
}

} // verus!
