use wavecore::storage::{storage_file_name, CachedResponse, Cookie, CookieJar, HttpCache, WebStorage};
use wavecore::urls::ParsedUrl;

#[test]
fn cookie_parsing_and_matching() {
    let cookie = Cookie::parse(
        "sessionId=abc12345; Domain=example.com; Path=/; Secure; HttpOnly",
        "https://example.com/login",
    )
    .unwrap();

    assert_eq!(cookie.name, "sessionId");
    assert_eq!(cookie.value, "abc12345");
    assert_eq!(cookie.domain, "example.com");
    assert!(cookie.secure);
    assert!(cookie.http_only);

    let url_https = ParsedUrl::parse("https://example.com/dashboard").unwrap();
    let url_http = ParsedUrl::parse("http://example.com/dashboard").unwrap();
    let url_other = ParsedUrl::parse("https://google.com/search").unwrap();

    assert!(cookie.matches_url(&url_https));
    assert!(!cookie.matches_url(&url_http)); // secure prevents http
    assert!(!cookie.matches_url(&url_other));
}

#[test]
fn cookie_jar_flow() {
    let mut jar = CookieJar::new();
    jar.process_set_cookie_header("theme=dark; Path=/", "https://example.com/settings");
    jar.process_set_cookie_header("lang=th; Path=/", "https://example.com/settings");

    let header = jar.cookie_header_for_url("https://example.com/home").unwrap();
    assert!(header.contains("theme=dark"));
    assert!(header.contains("lang=th"));
}

#[test]
fn web_storage_memory_operations() {
    let mut storage = WebStorage::new_in_memory();
    assert_eq!(storage.length(), 0);

    storage.set_item("username", "wavecore_user");
    storage.set_item("theme", "midnight");
    assert_eq!(storage.length(), 2);
    assert_eq!(storage.get_item("username"), Some("wavecore_user"));

    storage.remove_item("theme");
    assert_eq!(storage.length(), 1);
    assert_eq!(storage.get_item("theme"), None);

    storage.clear();
    assert_eq!(storage.length(), 0);
}

#[test]
fn cookie_defaults_come_from_the_page_url() {
    let c = Cookie::parse(" id = 7 ; domain=.shop.test", "https://www.shop.test/cart/view").unwrap();
    assert_eq!(c.name, "id");
    assert_eq!(c.value, "7");
    assert_eq!(c.domain, "shop.test");
    assert_eq!(c.path, "/cart/view");
    assert!(!c.secure);
    assert!(!c.http_only);
    let c = Cookie::parse("a=b", "not a url").unwrap();
    assert_eq!(c.domain, "");
    assert_eq!(c.path, "/");
}

#[test]
fn cookie_without_equals_is_refused() {
    assert!(Cookie::parse("novalue", "https://a.test/").is_none());
    assert!(Cookie::parse("", "https://a.test/").is_none());
}

#[test]
fn cookie_path_and_host_matching() {
    let c = Cookie::parse("k=v; Path=/app", "https://a.test/").unwrap();
    assert!(c.matches_url(&ParsedUrl::parse("http://a.test/app/x").unwrap()));
    assert!(c.matches_url(&ParsedUrl::parse("http://sub.a.test/app").unwrap()));
    assert!(!c.matches_url(&ParsedUrl::parse("http://a.test/other").unwrap()));
    assert!(!c.matches_url(&ParsedUrl::parse("data:text/plain,x").unwrap()));
}

#[test]
fn cookie_jar_replaces_same_name_domain_and_path() {
    let mut jar = CookieJar::new();
    jar.process_set_cookie_header("theme=dark; Path=/", "https://example.com/");
    jar.process_set_cookie_header("theme=light; Path=/", "https://example.com/");
    assert_eq!(jar.cookie_header_for_url("https://example.com/").unwrap(), "theme=light");
    jar.process_set_cookie_header("lang=th; Path=/", "https://example.com/");
    assert_eq!(jar.cookie_header_for_url("https://example.com/").unwrap(), "theme=light; lang=th");
    assert!(jar.cookie_header_for_url("https://other.test/").is_none());
    assert!(jar.cookie_header_for_url("::bad::").is_none());
    jar.process_set_cookie_header("garbage", "https://example.com/");
    assert_eq!(jar.cookie_header_for_url("https://example.com/").unwrap(), "theme=light; lang=th");
}

#[test]
fn web_storage_overwrites_and_saves() {
    let mut s = WebStorage::new_in_memory();
    s.set_item("a", "1");
    s.set_item("a", "2");
    assert_eq!(s.length(), 1);
    assert_eq!(s.get_item("a"), Some("2"));
    s.set_item("q", "say \"hi\"");
    assert_eq!(s.to_json(), "{\n  \"a\": \"2\",\n  \"q\": \"say \\\"hi\\\"\"\n}");
}

#[test]
fn web_storage_json_round_trip() {
    let mut s = WebStorage::new_in_memory();
    s.set_item("user", "ann");
    s.set_item("theme", "dark");
    let saved = s.to_json();
    let mut t = WebStorage::new_in_memory();
    t.load_json(&saved);
    assert_eq!(t.length(), 2);
    assert_eq!(t.get_item("user"), Some("ann"));
    assert_eq!(t.get_item("theme"), Some("dark"));
}

#[test]
fn web_storage_load_skips_lines_without_a_key() {
    let mut s = WebStorage::new_in_memory();
    s.load_json("{\n  \"\": \"x\",\n  no colon here\n  \"k\" : \"v\",\n}");
    assert_eq!(s.length(), 1);
    assert_eq!(s.get_item("k"), Some("v"));
}

#[test]
fn http_cache_put_get_replace_clear() {
    let mut cache = HttpCache::new();
    assert!(cache.get("https://a.test/").is_none());
    cache.put("https://a.test/", CachedResponse { status: 200, headers: vec![], body: b"one".to_vec(), etag: None });
    cache.put("https://b.test/", CachedResponse { status: 404, headers: vec![], body: vec![], etag: None });
    cache.put(
        "https://a.test/",
        CachedResponse { status: 304, headers: vec![], body: b"two".to_vec(), etag: Some("e1".to_string()) },
    );
    let a = cache.get("https://a.test/").unwrap();
    assert_eq!(a.status, 304);
    assert_eq!(a.body, b"two".to_vec());
    assert_eq!(cache.get("https://b.test/").unwrap().status, 404);
    cache.clear();
    assert!(cache.get("https://a.test/").is_none());
}

#[test]
fn storage_file_names_are_safe() {
    assert_eq!(storage_file_name("https://a.example"), "https___a_example.json");
    assert_eq!(storage_file_name("http://localhost:8080"), "http___localhost_8080.json");
    assert_eq!(storage_file_name("ไทย"), "ไทย.json");
}

#[test]
fn storage_length_grows_only_on_a_new_key() {
    let mut storage = WebStorage::new_in_memory();
    storage.set_item("a", "1");
    assert_eq!(storage.length(), 1);
    storage.set_item("a", "2");
    assert_eq!(storage.length(), 1);
    assert_eq!(storage.get_item("a"), Some("2"));
    storage.set_item("b", "3");
    assert_eq!(storage.length(), 2);
    storage.remove_item("zzz");
    assert_eq!(storage.length(), 2);
    storage.remove_item("a");
    assert_eq!(storage.length(), 1);
    assert_eq!(storage.get_item("b"), Some("3"));
}
