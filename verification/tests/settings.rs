use component_graph::clients::bridge::{Client, ListChats};
use component_graph::database::{
    database_url, database_url_var, pool_size, pool_size_for, pool_size_var, Error,
    DEFAULT_POOL_SIZE,
};

#[test]
fn client_keeps_what_it_is_given() {
    let client = Client::new("key-123", "https://bridge.example/api/", "agent/1.0");
    assert_eq!(client.api_key, "key-123");
    assert_eq!(client.api_url, "https://bridge.example/api/");
    assert_eq!(client.user_agent, "agent/1.0");
    assert_eq!(client.clone(), client);
}

#[test]
fn client_puts_the_endpoint_behind_the_address() {
    let client = Client::new("k", "https://bridge.example/api/", "ua");
    assert_eq!(client.url("chats/ListChats"), "https://bridge.example/api/chats/ListChats");
    assert_eq!(client.url(""), "https://bridge.example/api/");
    let bare = Client::new("k", "", "ua");
    assert_eq!(bare.url("agents/ListAgents"), "agents/ListAgents");
    let no_slash = Client::new("k", "http://host", "ua");
    assert_eq!(no_slash.url("models/ListModels"), "http://hostmodels/ListModels");
}

#[test]
fn client_offers_its_key_as_a_bearer_token() {
    assert_eq!(Client::new("key-123", "u", "a").authorization(), "Bearer key-123");
    assert_eq!(Client::new("", "u", "a").authorization(), "Bearer ");
}

#[test]
fn list_chats_holds_the_filter() {
    assert_eq!(ListChats { is_pinned: Some(true) }.is_pinned, Some(true));
    assert_eq!(ListChats { is_pinned: None }, ListChats { is_pinned: None });
    assert_ne!(ListChats { is_pinned: Some(false) }, ListChats { is_pinned: None });
}

#[test]
fn settings_are_named_with_and_without_a_prefix() {
    assert_eq!(pool_size_var(None), "POOL_SIZE");
    assert_eq!(pool_size_var(Some("BRIDGE")), "BRIDGE_POOL_SIZE");
    assert_eq!(pool_size_var(Some("")), "_POOL_SIZE");
    assert_eq!(database_url_var(None), "DATABASE_URL");
    assert_eq!(database_url_var(Some("BRIDGE")), "BRIDGE_DATABASE_URL");
    assert_eq!(database_url_var(Some("a_b")), "a_b_DATABASE_URL");
}

#[test]
fn pool_size_is_the_number_that_is_set() {
    assert_eq!(pool_size(Some("12")), 12);
    assert_eq!(pool_size(Some("0")), 0);
    assert_eq!(pool_size(Some("4294967295")), 4294967295);
    assert_eq!(pool_size(Some("+7")), 7);
    assert_eq!(pool_size(Some("007")), 7);
}

#[test]
fn pool_size_falls_back_to_the_default() {
    assert_eq!(DEFAULT_POOL_SIZE, 5);
    assert_eq!(pool_size(None), 5);
    assert_eq!(pool_size(Some("")), 5);
    assert_eq!(pool_size(Some("many")), 5);
    assert_eq!(pool_size(Some("-1")), 5);
    assert_eq!(pool_size(Some(" 8")), 5);
    assert_eq!(pool_size(Some("8 ")), 5);
    assert_eq!(pool_size(Some("4294967296")), 5);
    assert_eq!(pool_size(Some("1.5")), 5);
}

#[test]
fn pool_size_for_a_parsed_setting() {
    assert_eq!(pool_size_for(Some(9)), 9);
    assert_eq!(pool_size_for(Some(0)), 0);
    assert_eq!(pool_size_for(None), 5);
}

#[test]
fn database_url_is_what_is_set() {
    assert_eq!(
        database_url("DATABASE_URL".to_string(), Some("postgres://db/bridge".to_string())),
        Ok("postgres://db/bridge".to_string())
    );
    assert_eq!(database_url("DATABASE_URL".to_string(), Some(String::new())), Ok(String::new()));
}

#[test]
fn database_url_that_is_not_set_names_the_variable() {
    let missing = database_url(database_url_var(Some("BRIDGE")), None);
    assert_eq!(missing, Err(Error::DatabaseUrlNotSet("BRIDGE_DATABASE_URL".to_string())));
    assert_eq!(missing.unwrap_err().message(), "`BRIDGE_DATABASE_URL` is not set");
}
