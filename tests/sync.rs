use h2kv::config::{Config, ConfigError, Options};
use h2kv::handler::{handle_request, Method};
use h2kv::sync::{
    mirror_relative_path, storage_key_for_file, store_file, write_each_key, ExportAction,
    ImportOutcome,
};
use h2kv::{
    collect_updates, DatabaseWrapper, FilesystemActions, IgnoreFilter, PathExtensions,
    StorageBackend, StorageFactory,
};

fn strings(v: &[&str]) -> Vec<String> {
    v.iter().map(|s| s.to_string()).collect()
}

fn mirror(db: &mut DatabaseWrapper) -> Vec<ExportAction> {
    let actions = FilesystemActions { sync_dir: Some("/srv/mirror".to_string()), sync_write: true };
    let updates = db.take_updates();
    actions.do_write(&*db, updates, &IgnoreFilter::empty()).unwrap()
}

#[test]
fn updates_are_sorted_unique_and_skip_sidecars() {
    let keys = strings(&["/b.txt", "/a.ext", "/a.txt", "/b.txt", "/a.json", "/a.ext"]);
    assert_eq!(collect_updates(keys), strings(&["/a.json", "/a.txt", "/b.txt"]));
    assert!(collect_updates(vec![]).is_empty());
}

#[test]
fn mirror_paths() {
    assert_eq!(mirror_relative_path("/dir/b.octet-stream").as_deref(), Some("dir/b"));
    assert_eq!(mirror_relative_path("/a.txt").as_deref(), Some("a.txt"));
    assert_eq!(mirror_relative_path("a.txt"), None);
    assert_eq!(storage_key_for_file("dir/a.txt"), "/dir/a.txt");
}

#[test]
fn scenario_sync_on_reload() {
    let mut db = StorageFactory::create();
    let actions = FilesystemActions { sync_dir: Some("/srv/mirror".to_string()), sync_write: true };
    let files = vec![
        (storage_key_for_file("a.txt"), b"hello".to_vec()),
        (storage_key_for_file("b"), b"bytes".to_vec()),
    ];
    let queued = actions.do_read(&mut db, files, &IgnoreFilter::empty()).unwrap();
    assert_eq!(queued.len(), 4);
    assert_eq!(collect_updates(queued), strings(&["/a.txt", "/b.octet-stream"]));
    assert!(db.take_updates().is_empty());
    assert_eq!(db.get("/a.txt").unwrap(), Some(b"hello".to_vec()));
    assert_eq!(db.get("/b.octet-stream").unwrap(), Some(b"bytes".to_vec()));
    let sidecar = db.get("/a.ext").unwrap().unwrap();
    let ext = PathExtensions::from_stored("/a.txt", Some(&sidecar));
    assert_eq!(ext.get_media_type("txt").unwrap().to_text(), "text/plain");
    db.take_updates();

    let r = handle_request(&mut db, Method::Put, "/c.json", None, None, b"[]".to_vec()).unwrap();
    assert_eq!(r.status, 201);
    let plan = mirror(&mut db);
    assert_eq!(plan.len(), 1);
    match &plan[0] {
        ExportAction::Write { path, contents } => {
            assert_eq!(path, "c.json");
            assert_eq!(contents, &b"[]".to_vec());
        }
        other => panic!("unexpected {other:?}"),
    }
}

#[test]
fn export_then_import_restores_representations() {
    let mut db = StorageFactory::create();
    handle_request(&mut db, Method::Put, "/t", Some("text/plain"), None, b"text".to_vec()).unwrap();
    handle_request(&mut db, Method::Put, "/raw", None, None, b"raw".to_vec()).unwrap();
    handle_request(&mut db, Method::Put, "/d/j.json", Some("application/json"), None, b"{}".to_vec())
        .unwrap();
    let plan = mirror(&mut db);
    let mut files = vec![];
    for action in plan {
        match action {
            ExportAction::Write { path, contents } => files.push((storage_key_for_file(&path), contents)),
            other => panic!("unexpected {other:?}"),
        }
    }
    assert_eq!(files.len(), 3);
    let mut copy = StorageFactory::create();
    let actions = FilesystemActions { sync_dir: Some("/srv/mirror".to_string()), sync_write: false };
    actions.do_read(&mut copy, files, &IgnoreFilter::empty()).unwrap();
    for key in ["/t.txt", "/raw.octet-stream", "/d/j.json"] {
        assert_eq!(copy.get(key).unwrap(), db.get(key).unwrap(), "{key}");
    }
    let sidecar = copy.get("/d/j.ext").unwrap().unwrap();
    let ext = PathExtensions::from_stored("/d/j", Some(&sidecar));
    assert_eq!(ext.get_media_type("json").unwrap().to_text(), "application/json");
}

#[test]
fn export_removes_deleted_and_skips_ignored() {
    let mut db = StorageFactory::create();
    handle_request(&mut db, Method::Put, "/gone.txt", Some("text/plain"), None, b"x".to_vec()).unwrap();
    handle_request(&mut db, Method::Delete, "/gone.txt", None, None, vec![]).unwrap();
    handle_request(&mut db, Method::Put, "/skip.log", Some("text/plain"), None, b"x".to_vec()).unwrap();
    let ignore = IgnoreFilter::try_from_str("/*.log").unwrap();
    let keys = collect_updates(db.take_updates());
    let plan = write_each_key(&db, &keys, &ignore).unwrap();
    assert_eq!(plan.len(), 2);
    assert!(matches!(&plan[0], ExportAction::Remove { path } if path == "gone.txt"));
    assert!(matches!(&plan[1], ExportAction::Skip { key } if key == "/skip.log"));
}

#[test]
fn import_respects_filter() {
    let mut db = StorageFactory::create();
    let ignore = IgnoreFilter::try_from_str("/*.tmp").unwrap();
    let o = store_file(&mut db, "/x.tmp", b"t".to_vec(), &ignore).unwrap();
    assert_eq!(o, ImportOutcome::Ignored);
    assert_eq!(db.get("/x.tmp").unwrap(), None);
    let o = store_file(&mut db, "/y.html", b"<p/>".to_vec(), &ignore).unwrap();
    assert_eq!(o, ImportOutcome::Stored { guessed: true });
    let o = store_file(&mut db, "/", b"".to_vec(), &ignore).unwrap();
    assert_eq!(o, ImportOutcome::Unstorable);
}

#[test]
fn mirror_off_does_nothing() {
    let mut db = StorageFactory::create();
    let off = FilesystemActions { sync_dir: None, sync_write: true };
    assert!(off.do_read(&mut db, vec![("/a".to_string(), vec![1])], &IgnoreFilter::empty()).unwrap().is_empty());
    assert_eq!(db.get("/a.octet-stream").unwrap(), None);
    handle_request(&mut db, Method::Put, "/a", None, None, vec![1]).unwrap();
    let updates = db.take_updates();
    assert!(off.do_write(&db, updates, &IgnoreFilter::empty()).unwrap().is_empty());
}

fn options() -> Options {
    Options {
        storage_dir: "/var/h2kv".to_string(),
        storage_dir_is_dir: true,
        port: None,
        sync_dir: None,
        sync_dir_is_dir: false,
        sync_write: false,
        daemon: false,
        pidfile: None,
        log_filename: None,
    }
}

#[test]
fn config_checks() {
    let (c, notes) = Config::try_from_options(options(), IgnoreFilter::empty()).unwrap();
    assert_eq!(c.port, 5928);
    assert!(!notes.log_filename_ignored);
    let mut o = options();
    o.storage_dir_is_dir = false;
    assert_eq!(Config::try_from_options(o, IgnoreFilter::empty()).err(), Some(ConfigError::StorageDirNotDirectory));
    let mut o = options();
    o.sync_dir = Some("/nope".to_string());
    assert_eq!(Config::try_from_options(o, IgnoreFilter::empty()).err(), Some(ConfigError::SyncDirNotDirectory));
    let mut o = options();
    o.sync_write = true;
    assert_eq!(Config::try_from_options(o, IgnoreFilter::empty()).err(), Some(ConfigError::SyncWriteWithoutSyncDir));
    let mut o = options();
    o.pidfile = Some("/run/h2kv.pid".to_string());
    assert_eq!(Config::try_from_options(o, IgnoreFilter::empty()).err(), Some(ConfigError::PidfileWithoutDaemon));
    let mut o = options();
    o.port = Some(8080);
    o.pidfile = Some("/run/h2kv.pid".to_string());
    o.daemon = true;
    o.log_filename = Some("/var/log/h2kv".to_string());
    let (c, notes) = Config::try_from_options(o, IgnoreFilter::empty()).unwrap();
    assert_eq!(c.port, 8080);
    assert_eq!(c.pidfile.as_deref(), Some("/run/h2kv.pid"));
    assert!(!notes.log_filename_ignored);
    let mut o = options();
    o.log_filename = Some("/var/log/h2kv".to_string());
    let (_, notes) = Config::try_from_options(o, IgnoreFilter::empty()).unwrap();
    assert!(notes.log_filename_ignored);
}
