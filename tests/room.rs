use chat::room::{Room, RoomError};
use tokio::sync::mpsc;

#[test]
fn add_user_success() {
    let mut room = Room::new();
    let (sender, _) = mpsc::unbounded_channel();
    let result = room.add_user("alice".to_string(), sender);
    assert!(result.is_ok())
}

#[test]
fn user_already_exist() {
    let mut room = Room::new();
    let (sender, _) = mpsc::unbounded_channel();
    let _result = room.add_user("alice".to_string(), sender.clone());
    let result2 = room.add_user("alice".to_string(), sender);
    assert!(result2.is_err())
}

#[test]
fn remove_user() {
    let mut room = Room::new();
    let (tx, _rx) = mpsc::unbounded_channel();

    room.add_user("alice".to_string(), tx).unwrap();
    room.remove_user(&"alice".to_string());

    assert!(!room.contains(&"alice".to_string()));
}

#[test]
fn send_to_non_existing_user() {
    let mut room = Room::new();

    // Should not panic
    room.send(&"ghost".to_string(), "msg".to_string());
}

#[test]
fn broadcast_message() {
    let mut room = Room::new();

    let (tx1, mut rx1) = mpsc::unbounded_channel();
    let (tx2, mut rx2) = mpsc::unbounded_channel();

    room.add_user("alice".to_string(), tx1).unwrap();
    room.add_user("bob".to_string(), tx2).unwrap();

    room.broadcast_message("hi".to_string(), &"alice".to_string());

    assert_eq!(rx2.try_recv().unwrap(), "hi");
    assert!(rx1.try_recv().is_err());
}

#[test]
fn second_add_keeps_first_channel() {
    let mut room = Room::new();
    let (tx1, mut rx1) = mpsc::unbounded_channel();
    let (tx2, mut rx2) = mpsc::unbounded_channel();
    assert_eq!(room.add_user("alice".to_string(), tx1), Ok(()));
    assert_eq!(room.add_user("alice".to_string(), tx2), Err(RoomError::NameTaken));
    assert_eq!(room.len(), 1);
    room.send(&"alice".to_string(), "ping".to_string());
    assert_eq!(rx1.try_recv().unwrap(), "ping");
    assert!(rx2.try_recv().is_err());
}

#[test]
fn remove_absent_user_is_noop() {
    let mut room = Room::new();
    let (tx, _rx) = mpsc::unbounded_channel();
    room.add_user("alice".to_string(), tx).unwrap();
    room.remove_user(&"bob".to_string());
    assert_eq!(room.len(), 1);
    assert!(room.contains(&"alice".to_string()));
    room.remove_user(&"alice".to_string());
    room.remove_user(&"alice".to_string());
    assert_eq!(room.len(), 0);
}

#[test]
fn send_reaches_only_its_user() {
    let mut room = Room::new();
    let (tx1, mut rx1) = mpsc::unbounded_channel();
    let (tx2, mut rx2) = mpsc::unbounded_channel();
    room.add_user("alice".to_string(), tx1).unwrap();
    room.add_user("bob".to_string(), tx2).unwrap();
    room.send(&"bob".to_string(), "for bob".to_string());
    assert_eq!(rx2.try_recv().unwrap(), "for bob");
    assert!(rx1.try_recv().is_err());
}

#[test]
fn broadcast_excludes_one_of_three() {
    let mut room = Room::new();
    let (ta, mut ra) = mpsc::unbounded_channel();
    let (tb, mut rb) = mpsc::unbounded_channel();
    let (tc, mut rc) = mpsc::unbounded_channel();
    room.add_user("a".to_string(), ta).unwrap();
    room.add_user("b".to_string(), tb).unwrap();
    room.add_user("c".to_string(), tc).unwrap();
    room.broadcast_message("msg".to_string(), &"a".to_string());
    assert_eq!(rb.try_recv().unwrap(), "msg");
    assert!(rb.try_recv().is_err());
    assert_eq!(rc.try_recv().unwrap(), "msg");
    assert!(rc.try_recv().is_err());
    assert!(ra.try_recv().is_err());
}

#[test]
fn broadcast_survives_closed_receiver() {
    let mut room = Room::new();
    let (ta, ra) = mpsc::unbounded_channel();
    let (tb, mut rb) = mpsc::unbounded_channel();
    room.add_user("a".to_string(), ta).unwrap();
    room.add_user("b".to_string(), tb).unwrap();
    drop(ra);
    room.broadcast_message("x".to_string(), &String::new());
    assert_eq!(rb.try_recv().unwrap(), "x");
}

#[test]
fn many_distinct_adds_all_succeed() {
    let mut room = Room::new();
    let mut receivers = Vec::new();
    for i in 0..50 {
        let (tx, rx) = mpsc::unbounded_channel();
        receivers.push(rx);
        assert!(room.add_user(format!("user{}", i), tx).is_ok());
    }
    assert_eq!(room.len(), 50);
}

#[test]
fn many_same_name_adds_one_succeeds() {
    let mut room = Room::new();
    let mut ok = 0;
    let mut taken = 0;
    for _ in 0..20 {
        let (tx, _rx) = mpsc::unbounded_channel();
        match room.add_user("same".to_string(), tx) {
            Ok(()) => ok += 1,
            Err(RoomError::NameTaken) => taken += 1,
        }
    }
    assert_eq!(ok, 1);
    assert_eq!(taken, 19);
    assert_eq!(room.len(), 1);
}

#[test]
fn notify_reaches_unregistered_peer() {
    let mut room = Room::new();
    let (tx, mut rx) = mpsc::unbounded_channel();
    room.notify(&tx, "|6|".to_string());
    assert_eq!(rx.try_recv().unwrap(), "|6|");
    assert_eq!(room.len(), 0);
}
