use std::path::PathBuf;

use landmower::api::{AddLinkFailResponse, AddLinkRequest, Jsend};
use landmower::config::Config;
use landmower::links::Links;

fn config(blacklist: &[&str]) -> Config {
    Config {
        link_data_path: PathBuf::from("links.toml"),
        bind_address: String::new(),
        server_base_url: String::new(),
        key_blacklist: blacklist.iter().map(|s| s.to_string()).collect(),
    }
}

fn request(key: Option<&str>, link: &str) -> AddLinkRequest {
    AddLinkRequest { key: key.map(|k| k.to_string()), link: link.to_string() }
}

#[test]
fn jsend_accessors() {
    let s: Jsend<u32, String> = Jsend::Success(3);
    assert!(s.is_success() && !s.is_fail() && !s.is_error());
    assert_eq!(s.success(), Some(3));
    let f: Jsend<u32, String> = Jsend::Fail("bad".to_string());
    assert!(f.is_fail() && !f.is_success() && !f.is_error());
    assert_eq!(f.fail(), Some("bad".to_string()));
    let e: Jsend<u32, String> = Jsend::Error("boom".to_string());
    assert!(e.is_error());
    assert_eq!(e.error(), Some("boom".to_string()));
    let e2: Jsend<u32, String> = Jsend::Error("boom".to_string());
    assert_eq!(e2.success(), None);
    assert!(Jsend::<u32, String>::from_result(Ok(1)).is_success());
    assert!(Jsend::<u32, String>::from_result(Err("x".to_string())).is_fail());
}

#[test]
fn valid_request_passes() {
    let links = Links::new();
    assert!(request(Some("test"), "https://example.com").validate(&config(&[]), &links).is_none());
    assert!(request(None, "https://example.com").validate(&config(&[]), &links).is_none());
}

#[test]
fn link_complaints() {
    let links = Links::new();
    let r: AddLinkFailResponse = request(None, "").validate(&config(&[]), &links).unwrap();
    assert_eq!(r.link.as_deref(), Some("Link cannot be empty"));
    assert_eq!(r.key, None);
    let r = request(None, "/just/a/path").validate(&config(&[]), &links).unwrap();
    assert_eq!(r.link.as_deref(), Some("Invalid URL"));
    let r = request(None, "https://example.com").validate_with(false, &config(&[]), &links).unwrap();
    assert_eq!(r.link.as_deref(), Some("Invalid URL"));
}

#[test]
fn key_complaints() {
    let mut links = Links::new();
    links.add_named("taken".to_string(), "https://a.com".to_string()).unwrap();
    let c = config(&["admin"]);
    let short = request(Some("abc"), "https://example.com").validate(&c, &links).unwrap();
    assert_eq!(short.key.as_deref(), Some("Key cannot be less than 4 characters"));
    assert_eq!(short.link, None);
    let chars = request(Some("ab cd"), "https://example.com").validate(&c, &links).unwrap();
    assert_eq!(chars.key.as_deref(), Some("Key can only contain 0-9, A-Z, a-z, _ or -"));
    let banned = request(Some("admin"), "https://example.com").validate(&c, &links).unwrap();
    assert_eq!(banned.key.as_deref(), Some("Key 'admin' is disallowed"));
    let taken = request(Some("taken"), "https://example.com").validate(&c, &links).unwrap();
    assert_eq!(taken.key.as_deref(), Some("Key already in use"));
    let both = request(Some("abc"), "").validate(&c, &links).unwrap();
    assert!(both.key.is_some() && both.link.is_some());
    assert!(request(Some("ok_-9Z"), "https://example.com").validate(&c, &links).is_none());
    assert!(request(Some("äbc"), "https://example.com").validate(&c, &links).is_none());
}
