use h2kv::handler::{handle_request, read_response, Method, Response};
use h2kv::storage::BackendError;
use h2kv::media::MediaType;
use h2kv::negotiation::GuessError;
use h2kv::{DatabaseWrapper, NegotiatedPath, PathExtensions, StorageBackend, StorageFactory};

fn request(
    db: &mut DatabaseWrapper,
    method: Method,
    path: &str,
    content_type: Option<&str>,
    accept: Option<&str>,
    body: &[u8],
) -> Response {
    handle_request(db, method, path, content_type, accept, body.to_vec()).unwrap()
}

fn put(db: &mut DatabaseWrapper, path: &str, content_type: Option<&str>, body: &[u8]) -> Response {
    request(db, Method::Put, path, content_type, None, body)
}

fn get(db: &mut DatabaseWrapper, path: &str, accept: Option<&str>) -> Response {
    request(db, Method::Get, path, None, accept, b"")
}

#[test]
fn scenario_put_get_head() {
    let mut db = StorageFactory::create();
    let r = put(&mut db, "/x", Some("text/plain"), b"hello");
    assert_eq!(r.status, 201);
    assert_eq!(r.content_location.as_deref(), Some("/x.txt"));

    let r = get(&mut db, "/x.txt", None);
    assert_eq!(r.status, 200);
    assert_eq!(r.content_type.as_deref(), Some("text/plain"));
    assert_eq!(r.body, b"hello".to_vec());

    let r = request(&mut db, Method::Head, "/x.txt", None, None, b"");
    assert_eq!(r.status, 200);
    assert_eq!(r.content_length, Some(5));
    assert!(r.body.is_empty());
}

#[test]
fn scenario_accept_quality() {
    let mut db = StorageFactory::create();
    assert_eq!(put(&mut db, "/y.json", Some("application/json"), b"{\"a\":1}").status, 201);
    assert_eq!(put(&mut db, "/y.html", Some("text/html"), b"<p/>").status, 201);
    let r = get(&mut db, "/y", Some("text/html;q=0.8, application/json;q=0.9"));
    assert_eq!(r.status, 200);
    assert_eq!(r.content_type.as_deref(), Some("application/json"));
    assert_eq!(r.body, b"{\"a\":1}".to_vec());
}

#[test]
fn scenario_generic_bytes() {
    let mut db = StorageFactory::create();
    let r = put(&mut db, "/z", None, b"");
    assert_eq!(r.status, 201);
    assert_eq!(r.content_location.as_deref(), Some("/z"));
    assert_eq!(db.get("/z.octet-stream").unwrap(), Some(vec![]));
    let r = get(&mut db, "/z", None);
    assert_eq!(r.status, 200);
    assert_eq!(r.content_type.as_deref(), Some("application/octet-stream"));
}

#[test]
fn scenario_delete_one_representation() {
    let mut db = StorageFactory::create();
    put(&mut db, "/y.json", Some("application/json"), b"{\"a\":1}");
    put(&mut db, "/y.html", Some("text/html"), b"<p/>");
    let r = request(&mut db, Method::Delete, "/y.json", None, None, b"");
    assert_eq!(r.status, 204);
    assert_eq!(get(&mut db, "/y", Some("application/json")).status, 404);
    let r = get(&mut db, "/y", Some("text/html"));
    assert_eq!(r.status, 200);
    assert_eq!(r.body, b"<p/>".to_vec());
}

#[test]
fn put_then_get_with_same_type() {
    let mut db = StorageFactory::create();
    assert_eq!(put(&mut db, "/report", Some("text/csv"), b"a,b\n1,2\n").status, 201);
    let r = get(&mut db, "/report", Some("text/csv"));
    assert_eq!(r.status, 200);
    assert_eq!(r.content_type.as_deref(), Some("text/csv"));
    assert_eq!(r.body, b"a,b\n1,2\n".to_vec());
}

#[test]
fn put_then_get_by_extension() {
    let mut db = StorageFactory::create();
    put(&mut db, "/pic", Some("image/png"), &[1, 2, 3]);
    let r = get(&mut db, "/pic.png", None);
    assert_eq!(r.status, 200);
    assert_eq!(r.content_type.as_deref(), Some("image/png"));
    assert_eq!(r.body, vec![1, 2, 3]);
}

#[test]
fn content_type_essence_drops_parameters() {
    let mut db = StorageFactory::create();
    put(&mut db, "/n", Some("text/plain; charset=utf-8"), b"n");
    let r = get(&mut db, "/n.txt", None);
    assert_eq!(r.content_type.as_deref(), Some("text/plain"));
}

#[test]
fn delete_then_get_is_not_found() {
    let mut db = StorageFactory::create();
    put(&mut db, "/a.txt", Some("text/plain"), b"x");
    assert_eq!(request(&mut db, Method::Delete, "/a.txt", None, None, b"").status, 204);
    assert_eq!(get(&mut db, "/a.txt", None).status, 404);
    assert_eq!(get(&mut db, "/a", Some("*/*")).status, 404);
    assert_eq!(get(&mut db, "/a", Some("text/plain")).status, 404);
    assert_eq!(db.get("/a.ext").unwrap(), None);
}

#[test]
fn every_value_has_a_sidecar_entry() {
    let mut db = StorageFactory::create();
    put(&mut db, "/d/p", Some("text/plain"), b"1");
    put(&mut db, "/d/p", Some("text/html"), b"2");
    put(&mut db, "/d/q.json", None, b"3");
    request(&mut db, Method::Delete, "/d/p.html", None, None, b"");
    let sidecar = db.get("/d/p.ext").unwrap().unwrap();
    let ext = PathExtensions::from_stored("/d/p", Some(&sidecar));
    assert!(ext.contains_extension("txt"));
    assert!(!ext.contains_extension("html"));
    assert_eq!(db.get("/d/p.html").unwrap(), None);
    let sidecar = db.get("/d/q.ext").unwrap().unwrap();
    let ext = PathExtensions::from_stored("/d/q.json", Some(&sidecar));
    assert!(ext.contains_extension("json"));
}

#[test]
fn sidecar_round_trip() {
    let mut ext = PathExtensions::from_stored("/s", None);
    let first = NegotiatedPath::for_write("/s", Some("text/plain; charset=utf-8")).unwrap();
    ext.insert(&first);
    let second = NegotiatedPath::for_write("/s.json", Some("application/json")).unwrap();
    let (key, bytes) = ext.insert(&second);
    assert_eq!(key, "/s.ext");
    let again = PathExtensions::from_stored("/s", Some(&bytes.unwrap()));
    assert_eq!(again.path(), "/s.ext");
    assert_eq!(again.get_media_type("txt").unwrap().to_text(), "text/plain; charset=utf-8");
    assert_eq!(again.get_media_type("json").unwrap().to_text(), "application/json");
    let all: Vec<String> = again.get_all_media_types().iter().map(|m| m.to_text()).collect();
    assert_eq!(all, vec!["application/json", "text/plain; charset=utf-8"]);
}

#[test]
fn unreadable_sidecar_is_empty() {
    let ext = PathExtensions::from_stored("/s", Some(b"not json"));
    assert!(ext.get_all_media_types().is_empty());
    let ext = PathExtensions::from_stored("/s", Some(b"{\"txt\": 5}"));
    assert!(!ext.contains_extension("txt"));
}

#[test]
fn put_without_type_or_extension() {
    let n = NegotiatedPath::for_write("/a", None).unwrap();
    assert_eq!(n.storage_key(), "/a.octet-stream");
    assert_eq!(n.media_type().to_text(), "application/octet-stream");
    let mut db = StorageFactory::create();
    put(&mut db, "/a", None, b"raw");
    let r = get(&mut db, "/a", None);
    assert_eq!(r.status, 200);
    assert_eq!(r.body, b"raw".to_vec());
}

#[test]
fn trailing_slash_names_the_last_component() {
    let n = NegotiatedPath::for_write("/a/", None).unwrap();
    assert_eq!(n.storage_key(), "/a.octet-stream");
    let n = NegotiatedPath::for_write("/d/a/", Some("text/plain")).unwrap();
    assert_eq!(n.storage_key(), "/d/a.txt");
    assert_eq!(n.content_location_header(), "/a.txt");
    assert!(NegotiatedPath::for_write("/", None).is_none());
    let mut db = StorageFactory::create();
    put(&mut db, "/a/", None, b"slash");
    let r = get(&mut db, "/a/", None);
    assert_eq!(r.status, 200);
    assert_eq!(r.body, b"slash".to_vec());
}

#[test]
fn put_with_extension_and_other_type() {
    let n = NegotiatedPath::for_write("/a.txt", Some("text/html")).unwrap();
    assert_eq!(n.storage_key(), "/a.txt");
    assert_eq!(n.media_type().to_text(), "text/html");
    let mut db = StorageFactory::create();
    put(&mut db, "/a.txt", Some("text/html"), b"<b/>");
    let r = get(&mut db, "/a", Some("text/html"));
    assert_eq!(r.status, 200);
    assert_eq!(r.body, b"<b/>".to_vec());
}

#[test]
fn representations_coexist() {
    let mut db = StorageFactory::create();
    assert_eq!(put(&mut db, "/a", Some("text/plain; charset=utf-8"), b"plain").status, 201);
    assert_eq!(put(&mut db, "/a", Some("text/html"), b"html").status, 201);
    assert_eq!(db.get("/a.txt").unwrap(), Some(b"plain".to_vec()));
    assert_eq!(db.get("/a.html").unwrap(), Some(b"html".to_vec()));
    let r = get(&mut db, "/a", Some("*/*"));
    assert_eq!(r.status, 200);
    assert_eq!(r.body, b"plain".to_vec());
    put(&mut db, "/a", Some("application/json"), b"{}");
    let r = get(&mut db, "/a", Some("*/*"));
    assert_eq!(r.content_type.as_deref(), Some("application/json"));
}

#[test]
fn second_put_updates() {
    let mut db = StorageFactory::create();
    assert_eq!(put(&mut db, "/u.txt", Some("text/plain"), b"1").status, 201);
    let r = put(&mut db, "/u.txt", Some("text/html"), b"2");
    assert_eq!(r.status, 204);
    assert_eq!(r.content_location.as_deref(), Some("/u.txt"));
    let r = get(&mut db, "/u.txt", None);
    assert_eq!(r.content_type.as_deref(), Some("text/html"));
    assert_eq!(r.body, b"2".to_vec());
}

#[test]
fn refusals() {
    let mut db = StorageFactory::create();
    assert_eq!(put(&mut db, "/bad", Some("not a type"), b"x").status, 415);
    assert_eq!(db.get("/bad.octet-stream").unwrap(), None);
    assert_eq!(get(&mut db, "/missing", Some("text/plain")).status, 404);
    assert_eq!(get(&mut db, "/missing", None).status, 404);
    assert_eq!(get(&mut db, "/z.octet-stream", None).status, 404);
    assert_eq!(request(&mut db, Method::Delete, "/missing.txt", None, None, b"").status, 404);
    assert_eq!(request(&mut db, Method::Other, "/x", None, None, b"").status, 501);
    assert_eq!(put(&mut db, "/", None, b"root").status, 404);
    assert_eq!(put(&mut db, "/", Some("text/plain"), b"root").status, 404);
    put(&mut db, "/k", Some("text/plain"), b"k");
    assert_eq!(get(&mut db, "/k", Some("text/html")).status, 404);
    assert_eq!(get(&mut db, "/k", Some("a b c")).status, 404);
}

#[test]
fn media_type_parts() {
    let m = MediaType::parse("image/svg+xml; charset=utf-8").unwrap();
    assert_eq!(m.ty, "image");
    assert_eq!(m.subty, "svg");
    assert_eq!(m.suffix.as_deref(), Some("xml"));
    assert_eq!(m.params, vec![("charset".to_string(), "utf-8".to_string())]);
    assert_eq!(m.essence(), "image/svg+xml");
    assert_eq!(m.to_text(), "image/svg+xml; charset=utf-8");
    assert!(MediaType::parse("text").is_none());
}

#[test]
fn guessing_a_media_type() {
    let mut n = NegotiatedPath::for_write("/page.html", None).unwrap();
    assert_eq!(n.media_type().to_text(), "application/octet-stream");
    n.guess_media_type().unwrap();
    assert_eq!(n.content_type_header(), "text/html");
    let mut n = NegotiatedPath::for_write("/f.zzqq", None).unwrap();
    assert!(matches!(n.guess_media_type(), Err(GuessError::UnknownExtension)));
    assert_eq!(n.content_location_header(), "/f.zzqq");
    let n = NegotiatedPath::for_write("/d/g", None).unwrap();
    assert_eq!(n.content_location_header(), "/g");
    assert_eq!(n.describe(), "\"/d/g.octet-stream\" application/octet-stream");
}

#[test]
fn read_response_for_each_outcome() {
    let n = NegotiatedPath::for_write("/a.txt", Some("text/plain; charset=utf-8")).unwrap();
    let r = read_response(&n, Ok(Some(b"abc".to_vec())), false);
    assert_eq!(r.status, 200);
    assert_eq!(r.content_type.as_deref(), Some("text/plain"));
    assert_eq!(r.content_length, Some(3));
    assert_eq!(r.body, b"abc".to_vec());
    let r = read_response(&n, Ok(Some(b"abc".to_vec())), true);
    assert_eq!(r.content_length, Some(3));
    assert!(r.body.is_empty());
    assert_eq!(read_response(&n, Ok(None), false).status, 404);
    let failed = BackendError { message: "disk".to_string() };
    assert_eq!(read_response(&n, Err(failed), false).status, 503);
}

#[test]
fn sidecar_loads_from_store() {
    let mut db = StorageFactory::create();
    put(&mut db, "/m", Some("text/plain"), b"m");
    let ext = PathExtensions::get_for_path("/m.txt", &db);
    assert_eq!(ext.path(), "/m.ext");
    assert!(ext.contains_extension("txt"));
    let loaded = PathExtensions::load("/m", &db).unwrap();
    assert_eq!(loaded.get_media_type("txt").unwrap().to_text(), "text/plain");
    assert!(PathExtensions::load("/none", &db).unwrap().get_all_media_types().is_empty());
}
