use bili_live_notify::db::{DbOperationError, Room, RoomRecord, RoomStore, RoomsOperator};
use bili_live_notify::models::{Chats, Regis, Rooms};
use bili_live_notify::response_type::{LiveRoomInfo, LiveStatus, MultiLiveRoomStatus, UnknownStatusCode};

fn record(room_id: i64, status: LiveStatus, last: Option<i64>) -> RoomRecord {
    RoomRecord {
        room_id,
        local_id: None,
        status,
        last_refreshed_at: last,
        display_name: None,
    }
}

#[test]
fn test_get_live_rooms() {
    let mut store = RoomStore::new();
    assert!(store.register(record(12345, LiveStatus::Living, Some(1_000))));

    assert_eq!(
        RoomsOperator::get_status_by_id(&store, None, Some(12345))
            .expect("Fail to get status")
            .status,
        Some(LiveStatus::Living)
    );
}

#[test]
fn test_get_pending_rooms() {
    let mut store = RoomStore::new();
    assert!(store.register(record(12345, LiveStatus::Living, None)));
    assert!(store.register(record(67890, LiveStatus::Sleep, None)));

    assert_eq!(RoomsOperator::get_pending(&store, 1_000, 60), vec![12345, 67890]);
}

#[test]
fn lookup_by_surrogate_key() {
    let mut store = RoomStore::new();
    let mut rec = record(555, LiveStatus::Loop, None);
    rec.local_id = Some(9);
    rec.display_name = Some("name".to_string());
    assert!(store.register(rec));
    assert_eq!(
        RoomsOperator::get_status_by_id(&store, Some(9), Some(1)),
        Ok(Room {
            room_id: 555,
            status: Some(LiveStatus::Loop),
            username: Some("name".to_string()),
        })
    );
    assert_eq!(
        RoomsOperator::get_status_by_id(&store, Some(10), Some(555)),
        Err(DbOperationError::NoResult)
    );
}

#[test]
fn lookup_without_any_key_is_refused() {
    let store = RoomStore::new();
    assert_eq!(
        RoomsOperator::get_status_by_id(&store, None, None),
        Err(DbOperationError::NoIdForRoomsError)
    );
}

#[test]
fn lookup_of_unknown_room_finds_nothing() {
    let mut store = RoomStore::new();
    assert!(store.register(record(1, LiveStatus::Sleep, None)));
    assert_eq!(
        RoomsOperator::get_status_by_id(&store, None, Some(2)),
        Err(DbOperationError::NoResult)
    );
}

#[test]
fn register_refuses_duplicate_keys() {
    let mut store = RoomStore::new();
    let mut a = record(1, LiveStatus::Sleep, None);
    a.local_id = Some(1);
    assert!(store.register(a));
    assert!(!store.register(record(1, LiveStatus::Living, None)));
    let mut b = record(2, LiveStatus::Sleep, None);
    b.local_id = Some(1);
    assert!(!store.register(b));
    assert_eq!(store.records().len(), 1);
}

#[test]
fn compare_and_set_same_status_reports_no_change_and_refreshes() {
    let mut store = RoomStore::new();
    assert!(store.register(record(7, LiveStatus::Sleep, Some(100))));
    assert_eq!(store.compare_and_set(7, LiveStatus::Sleep, 500), Ok(false));
    assert_eq!(store.records()[0].status, LiveStatus::Sleep);
    assert_eq!(store.records()[0].last_refreshed_at, Some(500));
}

#[test]
fn compare_and_set_new_status_reports_change_and_persists() {
    let mut store = RoomStore::new();
    assert!(store.register(record(7, LiveStatus::Sleep, Some(100))));
    assert_eq!(store.compare_and_set(7, LiveStatus::Living, 500), Ok(true));
    assert_eq!(store.records()[0].status, LiveStatus::Living);
    assert_eq!(store.records()[0].last_refreshed_at, Some(500));
    assert_eq!(store.compare_and_set(7, LiveStatus::Loop, 600), Ok(true));
    assert_eq!(store.records()[0].status, LiveStatus::Loop);
}

#[test]
fn compare_and_set_never_moves_refresh_time_back() {
    let mut store = RoomStore::new();
    assert!(store.register(record(7, LiveStatus::Sleep, Some(900))));
    assert_eq!(store.compare_and_set(7, LiveStatus::Sleep, 500), Ok(false));
    assert_eq!(store.records()[0].last_refreshed_at, Some(900));
}

#[test]
fn compare_and_set_unknown_room_is_not_found() {
    let mut store = RoomStore::new();
    assert!(store.register(record(7, LiveStatus::Sleep, Some(100))));
    assert_eq!(store.compare_and_set(8, LiveStatus::Living, 500), Err(DbOperationError::NoResult));
    assert_eq!(store.records().len(), 1);
    assert_eq!(store.records()[0], record(7, LiveStatus::Sleep, Some(100)));
}

#[test]
fn get_stale_skips_rooms_inside_the_window() {
    let mut store = RoomStore::new();
    assert!(store.register(record(1, LiveStatus::Sleep, Some(950))));
    assert!(store.register(record(2, LiveStatus::Sleep, Some(900))));
    assert!(store.register(record(3, LiveStatus::Sleep, Some(899))));
    assert!(store.register(record(4, LiveStatus::Living, None)));
    assert_eq!(store.get_stale(1_000, 100), vec![3, 4]);
    assert_eq!(store.get_stale(1_000, 0), vec![1, 2, 3, 4]);
    assert_eq!(store.get_stale(i64::MIN, i64::MAX), vec![4]);
}

#[test]
fn get_stale_of_empty_store_is_empty() {
    let store = RoomStore::new();
    assert!(store.get_stale(1_000, 10).is_empty());
}

#[test]
fn update_status_reports_changed_rooms() {
    let mut store = RoomStore::new();
    assert!(store.register(record(1, LiveStatus::Sleep, None)));
    assert!(store.register(record(2, LiveStatus::Living, None)));
    let info = |room_id: u64, live_status: LiveStatus| LiveRoomInfo {
        area_name: String::new(),
        area_v2_name: String::new(),
        cover_from_user: None,
        keyframe: None,
        live_status,
        online: 0,
        tag_name: Vec::new(),
        uname: String::new(),
        uid: room_id,
        title: String::new(),
        room_id,
    };
    let multi = MultiLiveRoomStatus {
        code: 0,
        message: "0".to_string(),
        data: vec![
            ("1".to_string(), info(1, LiveStatus::Living)),
            ("2".to_string(), info(2, LiveStatus::Living)),
            ("3".to_string(), info(3, LiveStatus::Living)),
        ],
    };
    assert_eq!(RoomsOperator::update_status(&mut store, &multi, 50), vec![1]);
    assert_eq!(store.records()[0].status, LiveStatus::Living);
    assert_eq!(store.records()[1].last_refreshed_at, Some(50));
}

#[test]
fn rooms_row_becomes_a_record() {
    let row = Rooms {
        id: 3,
        room_id: 12345,
        uname: Some("u".to_string()),
        status: 2,
        last_query_at: Some(77),
        updated_at: 70,
        archive: None,
    };
    assert_eq!(
        row.to_record(),
        Ok(RoomRecord {
            room_id: 12345,
            local_id: Some(3),
            status: LiveStatus::Loop,
            last_refreshed_at: Some(77),
            display_name: Some("u".to_string()),
        })
    );
    let bad = Rooms { status: 5, ..row };
    assert_eq!(bad.to_record(), Err(UnknownStatusCode { code: 5 }));
}

#[test]
fn chat_and_subscription_rows_hold_their_keys() {
    let chat = Chats { id: 1, room_id: 12345 };
    let sub = Regis { id: 2, cid: 1, rid: 3 };
    assert_eq!(chat, Chats { id: 1, room_id: 12345 });
    assert_eq!((sub.cid, sub.rid), (1, 3));
}
