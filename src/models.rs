//! Rows of the tables that persist tracked rooms, chats and subscriptions.
//! Times are whole seconds since the Unix epoch.
use vstd::prelude::*;
use crate::db::RoomRecord;
use crate::response_type::{status_of_code, LiveStatus, UnknownStatusCode};

verus! {

/// A row of the rooms table.
#[derive(Debug, Clone, PartialEq, Eq)]
pub struct Rooms {
    pub id: i32,
    pub room_id: i64,
    pub uname: Option<String>,
    /// The raw status code.
    pub status: i32,
    /// When the room was last checked; `None` if it never was.
    pub last_query_at: Option<i64>,
    pub updated_at: i64,
    pub archive: Option<bool>,
}

/// A row of the chats table: a chat that receives notifications.
#[derive(Debug, Clone, Copy, PartialEq, Eq, Structural)]
pub struct Chats {
    pub id: i32,
    pub room_id: i64,
}

/// A row of the subscriptions table: chat `cid` follows room `rid`.
#[derive(Debug, Clone, Copy, PartialEq, Eq, Structural)]
pub struct Regis {
    pub id: i32,
    pub cid: i32,
    pub rid: i32,
}

impl Rooms {
    /// The store record of this row; a row whose status code is unknown is
    /// refused with that code.
    pub fn to_record(&self) -> (r: Result<RoomRecord, UnknownStatusCode>)
        ensures
            match status_of_code(self.status as int) {
                Some(s) => r matches Ok(rec) && rec == (RoomRecord {
                    room_id: self.room_id,
                    local_id: Some(self.id),
                    status: s,
                    last_refreshed_at: self.last_query_at,
                    display_name: self.uname,
                }),
                None => r == Err::<RoomRecord, UnknownStatusCode>(
                    UnknownStatusCode { code: self.status as i64 },
                ),
            },
    {
        match LiveStatus::decode(self.status as i64) {
            Ok(status) => Ok(
                RoomRecord {
                    room_id: self.room_id,
                    local_id: Some(self.id),
                    status,
                    last_refreshed_at: self.last_query_at,
                    display_name: self.uname.clone(),
                },
            ),
            Err(e) => Err(e),
        }
    }
}

} // verus!
