use verseengine::document::DocumentId;
use verseengine::server::{Id, IdType, Server, ServerField};

#[test]
fn ids_convert_and_compare_by_number() {
    let a: Id = 5u64.into();
    assert!(matches!(a.id_type, IdType::Channel));
    let b: Id = (5u64, IdType::Role).into();
    assert!(matches!(b.id_type, IdType::Role));
    assert!(a == b);
    let c: Id = (6u64, IdType::Role).into();
    assert!(b != c);
}

#[test]
fn default_server_holds_nothing() {
    let s = Server::default();
    assert_eq!(s.server_id, 0);
    assert!(s.all_ids().is_empty());
    assert!(!s.contains_id(0));
    assert!(s.universal_invite_url.is_none());
}

#[test]
fn setters_fill_their_field() {
    let mut s = Server::default();
    s.universe_id(DocumentId { value: 3 });
    s.server_id(77);
    s.admin_role_id(Id { id: 1, id_type: IdType::Role });
    s.log_channel_id(Id::from(2u64));
    s.road_category_id(Id { id: 3, id_type: IdType::Category });
    assert_eq!(s.universe_id, DocumentId { value: 3 });
    assert_eq!(s.server_id, 77);
    let ids: Vec<u64> = s.all_ids().iter().map(|i| i.id).collect();
    assert_eq!(ids, vec![1, 3, 2]);
    assert!(s.contains_id(2));
    assert!(!s.contains_id(4));
    assert_eq!(s.field(ServerField::LogChannel).map(|i| i.id), Some(2));
}

#[test]
fn snapshot_drops_what_no_longer_exists() {
    let mut s = Server::default();
    s.admin_role_id(Id { id: 1, id_type: IdType::Role });
    s.player_role_id(Id { id: 2, id_type: IdType::Role });
    s.rp_category_id(Id { id: 10, id_type: IdType::Category });
    s.log_channel_id(Id { id: 11, id_type: IdType::Channel });
    s.universal_invite_url = Some("https://example.invalid/x".to_string());
    let snap = s.snaphot(&vec![1, 10], &vec![11, 2]);
    assert_eq!(snap.admin_role_id.map(|i| i.id), Some(1));
    assert!(snap.player_role_id.is_none());
    assert!(snap.rp_category_id.is_none());
    assert_eq!(snap.log_channel_id.map(|i| i.id), Some(11));
    assert_eq!(snap.universal_invite_url.as_deref(), Some("https://example.invalid/x"));
}

#[test]
fn rollback_targets_the_fields_that_differ() {
    let mut snap = Server::default();
    snap.admin_role_id(Id { id: 1, id_type: IdType::Role });
    snap.everyone_role_id(Id { id: 9, id_type: IdType::Role });
    let mut s = snap.clone();
    s.admin_role_id(Id { id: 1, id_type: IdType::Category });
    s.moderator_role_id(Id { id: 4, id_type: IdType::Role });
    s.everyone_role_id(Id { id: 8, id_type: IdType::Role });
    s.commands_channel_id(Id { id: 5, id_type: IdType::Channel });
    let f = s.rollback_fields(&snap);
    assert_eq!(f, vec![ServerField::ModeratorRole, ServerField::CommandsChannel]);
    s.set_field(ServerField::ModeratorRole, None);
    assert!(s.moderator_role_id.is_none());
}

#[test]
fn a_successful_rollback_empties_what_differed() {
    let mut snap = Server::default();
    snap.admin_role_id(Id { id: 1, id_type: IdType::Role });
    let mut s = snap.clone();
    s.moderator_role_id(Id { id: 4, id_type: IdType::Role });
    s.commands_channel_id(Id { id: 5, id_type: IdType::Channel });
    let f = s.rollback_fields(&snap);
    s.clear_fields(&f);
    assert!(s.moderator_role_id.is_none());
    assert!(s.commands_channel_id.is_none());
    assert_eq!(s.admin_role_id.map(|i| i.id), Some(1));
}
