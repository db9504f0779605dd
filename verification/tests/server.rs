use chat_base::client::resolve_server_address;
use chat_base::derive::{serialized_fields, DeriveError, DeriveShape};
use chat_base::server::{handle_pass, parse_command, rename_user, LoopControl};
use chat_base::structs::{Pass, PassFunction, UserIdentifier, UserMap};

fn rename_target(p: Option<Pass>) -> Option<String> {
    match p {
        Some(Pass::Function(PassFunction::Rename(name))) => Some(name),
        _ => None,
    }
}

#[test]
fn rename_commands() {
    assert_eq!(rename_target(parse_command(&"!rename bob".to_string())), Some("bob".to_string()));
    assert_eq!(
        rename_target(parse_command(&"!rename !rename x".to_string())),
        Some("x".to_string())
    );
    assert_eq!(
        rename_target(parse_command(&"!renamebob".to_string())),
        Some("!renamebob".to_string())
    );
    assert!(parse_command(&"hello".to_string()).is_none());
    assert!(parse_command(&"!help".to_string()).is_none());
    assert!(parse_command(&"".to_string()).is_none());
}

#[test]
fn user_map_insert_and_remove() {
    let mut map: UserMap<u32> = UserMap::new();
    assert_eq!(map.insert("a".to_string(), 1), None);
    assert_eq!(map.insert("b".to_string(), 2), None);
    assert_eq!(map.insert("a".to_string(), 3), Some(1));
    assert!(map.contains_key(&"a".to_string()));
    assert_eq!(map.remove(&"a".to_string()), Some(3));
    assert!(!map.contains_key(&"a".to_string()));
    assert_eq!(map.remove(&"a".to_string()), None);
    assert_eq!(map.remove(&"b".to_string()), Some(2));
}

#[test]
fn renaming_moves_the_entry() {
    let mut map: UserMap<u32> = UserMap::new();
    map.insert("old".to_string(), 7);
    let mut username = "old".to_string();
    assert!(matches!(rename_user("new".to_string(), &mut map, &mut username), Pass::NOOP));
    assert_eq!(username, "new");
    assert!(!map.contains_key(&"old".to_string()));
    assert_eq!(map.remove(&"new".to_string()), Some(7));

    let mut missing = "ghost".to_string();
    rename_user("x".to_string(), &mut map, &mut missing);
    assert_eq!(missing, "ghost");
    assert!(!map.contains_key(&"x".to_string()));
}

#[test]
fn passes_drive_the_send_loop() {
    let mut map: UserMap<u32> = UserMap::new();
    map.insert("u".to_string(), 1);
    let mut username = "u".to_string();
    assert_eq!(handle_pass(Pass::NOOP, &mut map, &mut username), LoopControl::Continue);
    assert_eq!(
        handle_pass(Pass::Function(PassFunction::Rename("v".to_string())), &mut map, &mut username),
        LoopControl::Continue
    );
    assert_eq!(username, "v");
    assert!(map.contains_key(&"v".to_string()));
    assert_eq!(handle_pass(Pass::CloseConnection, &mut map, &mut username), LoopControl::Stop);
    assert!(!map.contains_key(&"v".to_string()));
}

#[test]
fn user_identifier_rename_keeps_connections() {
    let mut u: UserIdentifier<u8> = UserIdentifier::new("ann");
    assert_eq!(u.username, "ann");
    assert!(u.connections.is_empty());
    u.connections.push(3);
    let v = u.rename("bea");
    assert_eq!(v.username, "bea");
    assert_eq!(v.connections, vec![3]);
}

#[test]
fn server_addresses() {
    assert_eq!(resolve_server_address("Quit".to_string()), None);
    assert_eq!(resolve_server_address(String::new()), Some("localhost:8888".to_string()));
    assert_eq!(resolve_server_address("host:1".to_string()), Some("host:1".to_string()));
    assert_eq!(resolve_server_address("quit".to_string()), Some("quit".to_string()));
}

#[test]
fn derive_goes_through_named_fields() {
    assert_eq!(serialized_fields(&DeriveShape::Struct(vec![true, false, true])), Ok(vec![0, 2]));
    assert_eq!(serialized_fields(&DeriveShape::Struct(vec![])), Ok(vec![]));
    assert_eq!(serialized_fields(&DeriveShape::Enum), Err(DeriveError::EnumsUnsupported));
    assert_eq!(serialized_fields(&DeriveShape::Union), Err(DeriveError::UnionsUnsupported));
}
