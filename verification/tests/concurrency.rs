use std::sync::{Arc, Mutex};

use kvcache::db::Db;
use kvcache::session::handle_request;

#[test]
fn concurrent_sets_on_distinct_keys_all_land() {
    let rt = tokio::runtime::Builder::new_multi_thread()
        .worker_threads(4)
        .build()
        .unwrap();
    let db = Arc::new(Mutex::new(Db::new()));
    let n: usize = 32;
    rt.block_on(async {
        let mut handles = Vec::new();
        for i in 0..n {
            let db = db.clone();
            handles.push(tokio::spawn(async move {
                let request = format!("SET key{} value{}\n", i, i);
                let r = {
                    let mut db = db.lock().unwrap();
                    handle_request(&mut db, request.as_bytes(), 0)
                };
                assert_eq!(r, "OK\n");
            }));
        }
        for h in handles {
            h.await.unwrap();
        }
    });
    let db = db.lock().unwrap();
    for i in 0..n {
        let r = db.get(&format!("key{}", i), 0);
        assert_eq!(r, Ok(format!("value{}\n", i)));
    }
}
