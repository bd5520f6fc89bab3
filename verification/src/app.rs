//! The top-level application state: the loaded inventory and the single
//! selected item, written by whichever event comes last.

use vstd::prelude::*;
use crate::inventory::TileInventory;

verus! {

/// Events the application reacts to.
pub enum Msg {
    InventoryLoaded(Vec<TileInventory>),
    ItemSelected(Option<TileInventory>),
}

/// The owner of the inventory and the selection.
pub struct App {
    pub inventory: Vec<TileInventory>,
    pub selected_item: Option<TileInventory>,
}

impl App {
    /// A fresh application: no inventory yet, nothing selected.
    pub fn create() -> (r: Self)
        ensures
            r.inventory@.len() == 0,
            r.selected_item is None,
    {
        App { inventory: Vec::new(), selected_item: None }
    }

    /// Handles one event: a loaded inventory replaces the records and
    /// selects the first item, if any; a selection event replaces the
    /// selection — last write wins. Both redraw.
    pub fn update(&mut self, msg: Msg) -> (r: bool)
        ensures
            r,
            match msg {
                Msg::InventoryLoaded(inv) => {
                    &&& final(self).inventory@ == inv@
                    &&& (inv@.len() > 0 ==> (final(self).selected_item matches Some(s) && s@
                        == inv@[0]@))
                    &&& (inv@.len() == 0 ==> final(self).selected_item is None)
                },
                Msg::ItemSelected(item) => {
                    &&& final(self).inventory@ == old(self).inventory@
                    &&& final(self).selected_item == item
                },
            },
    {
        match msg {
            Msg::InventoryLoaded(inv) => {
                self.inventory = inv;
                self.selected_item = if self.inventory.len() > 0 {
                    Some(self.inventory[0].duplicate())
                } else {
                    None
                };
                true
            },
            Msg::ItemSelected(item) => {
                self.selected_item = item;
                true
            },
        }
    }
}

} // verus!
