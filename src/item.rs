use vstd::prelude::*;

verus! {

/// Lowest table number that accepts orders.
pub const MIN_TABLE_NO: u32 = 1;

/// Highest table number that accepts orders.
pub const MAX_TABLE_NO: u32 = 100;

/// Whether orders may be placed for `table_no`.
pub open spec fn valid_table(table_no: u32) -> bool {
    MIN_TABLE_NO <= table_no <= MAX_TABLE_NO
}

/// One order placed for a table.
pub struct Item {
    pub table_no: u32,
    pub item_no: u64,
    pub content: String,
    /// Seconds since the epoch at which the order was placed.
    pub create_at: u64,
    /// Estimated preparation time, in minutes.
    pub time_take: u32,
}

impl Clone for Item {
    fn clone(&self) -> (r: Item)
        ensures
            r == *self,
    {
        Item {
            table_no: self.table_no,
            item_no: self.item_no,
            content: self.content.clone(),
            create_at: self.create_at,
            time_take: self.time_take,
        }
    }
}

impl Item {
    pub fn new(table_no: u32, item_no: u64, content: String, create_at: u64, time_take: u32) -> (r: Item)
        ensures
            r.table_no == table_no,
            r.item_no == item_no,
            r.content == content,
            r.create_at == create_at,
            r.time_take == time_take,
    {
        Item { table_no, item_no, content, create_at, time_take }
    }
}

/// A request to place an order of `content` for `table_no`.
pub struct AddReq {
    pub table_no: u32,
    pub content: String,
}

/// A request to cancel item `item_no` of `table_no`.
pub struct RemoveReq {
    pub table_no: u32,
    pub item_no: u64,
}

} // verus!
