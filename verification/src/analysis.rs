//! Summary counts over the whole inventory.

use vstd::prelude::*;
use crate::inventory::TileInventory;
use crate::inventory::RecordModel;
use crate::inventory::dataset_model;

verus! {

/// Totals for the analysis display: how many entries the inventory holds,
/// and how many damaged tiles are known in all.
pub struct InventoryAnalysis {
    pub total_items: usize,
    pub total_damaged_tiles: u64,
}

/// Sum of the known damaged-tile counts; an unknown count contributes
/// nothing.
pub open spec fn spec_total_damaged(d: Seq<RecordModel>) -> int
    decreases d.len(),
{
    if d.len() == 0 {
        0
    } else {
        (match d[0].number_of_tiles_damaged {
            Some(n) => n as int,
            None => 0int,
        }) + spec_total_damaged(d.drop_first())
    }
}

/// Totals the inventory.
pub fn analyze_inventory(inventory: &Vec<TileInventory>) -> (r: InventoryAnalysis)
    requires
        inventory@.len() <= 0xffff_ffff,
    ensures
        r.total_items == inventory@.len(),
        r.total_damaged_tiles as int == spec_total_damaged(dataset_model(inventory@)),
{
    let ghost d = dataset_model(inventory@);
    let mut total: u64 = 0;
    let mut i: usize = 0;
    proof {
        assert(d.skip(0) =~= d);
    }
    while i < inventory.len()
        invariant
            i <= inventory@.len(),
            inventory@.len() <= 0xffff_ffff,
            d == dataset_model(inventory@),
            d.len() == inventory@.len(),
            total as int <= i * 0xffff_ffff,
            spec_total_damaged(d) == total + spec_total_damaged(d.skip(i as int)),
        decreases inventory@.len() - i,
    {
        proof {
            assert(d.skip(i as int)[0] == d[i as int]);
            assert(d.skip(i as int).drop_first() =~= d.skip(i as int + 1));
            assert(d[i as int] == inventory@[i as int]@);
        }
        match inventory[i].number_of_tiles_damaged {
            Some(n) => {
                total = total + (n as u64);
            },
            None => {},
        }
        i += 1;
    }
    proof {
        assert(d.skip(d.len() as int) =~= Seq::<RecordModel>::empty());
    }
    InventoryAnalysis { total_items: inventory.len(), total_damaged_tiles: total }
}

} // verus!
