use spm_ingest::bench::{BatchReport, Bencher};
use spm_ingest::canonical::checksum;
use spm_ingest::store::{host_response, hosts_response, Host, HostPackages, HostResponse, HostStore, HostsResponse};

fn inventory(id: i32, arch: &str, pkgs: &[&str]) -> HostPackages {
    HostPackages { id, arch: arch.to_string(), packages: pkgs.iter().map(|s| s.to_string()).collect() }
}

fn host(id: i32, request: &str) -> Host {
    Host { id, request: request.to_string(), checksum: checksum(request) }
}

#[test]
fn missing_host_is_not_found() {
    let store = HostStore::new();
    assert_eq!(HostResponse::NotFound, store.single_host(1));
    assert_eq!(HostsResponse::NotFound, store.all_hosts());
}

#[test]
fn corrupted_checksum_is_stale_with_record_unchanged() {
    let mut store = HostStore::new();
    let bad = Host { id: 7, request: "{\"package_list\":[]}".to_string(), checksum: "00".to_string() };
    store.upsert(bad.clone());
    assert_eq!(HostResponse::Stale(bad), store.single_host(7));
}

#[test]
fn intact_record_is_fresh_in_either_case() {
    let good = host(3, "{\"package_list\":[]}");
    assert_eq!(HostResponse::Fresh(good.clone()), host_response(Some(good.clone())));
    let upper = Host { checksum: good.checksum.to_uppercase(), ..good.clone() };
    assert_eq!(HostResponse::Fresh(upper.clone()), host_response(Some(upper)));
    assert_eq!(HostResponse::NotFound, host_response(None));
}

#[test]
fn upsert_twice_equals_once() {
    let mut once = HostStore::new();
    once.upsert(host(1, "a"));
    let mut twice = HostStore::new();
    twice.upsert(host(1, "a"));
    twice.upsert(host(1, "a"));
    assert_eq!(once.list_all(), twice.list_all());
    assert_eq!(1, twice.list_all().len());
}

#[test]
fn upsert_replaces_request_and_checksum_together() {
    let mut store = HostStore::new();
    store.upsert(host(1, "a"));
    store.upsert(host(2, "b"));
    store.upsert(host(1, "c"));
    assert_eq!(Some(host(1, "c")), store.get_by_id(1));
    assert_eq!(Some(host(2, "b")), store.get_by_id(2));
    assert_eq!(None, store.get_by_id(3));
    assert_eq!(HostsResponse::Found(vec![host(1, "c"), host(2, "b")]), store.all_hosts());
}

#[test]
fn ingest_converges_to_one_inventory() {
    let a = inventory(1, "x86_64", &["foo-1.0-1.x86_64"]);
    let b = inventory(1, "x86_64", &["bar-2.0-1.x86_64"]);
    let mut ab = HostStore::new();
    ab.ingest(&a).unwrap();
    ab.ingest(&b).unwrap();
    let mut ba = HostStore::new();
    ba.ingest(&b).unwrap();
    ba.ingest(&a).unwrap();
    assert_eq!(Some(b.to_host().unwrap()), ab.get_by_id(1));
    assert_eq!(Some(a.to_host().unwrap()), ba.get_by_id(1));
    match ab.single_host(1) {
        HostResponse::Fresh(h) => assert_eq!("{\"package_list\":[\"bar-2.0-1.x86_64\"]}", h.request),
        other => panic!("{:?}", other),
    }
}

#[test]
fn ingest_of_invalid_inventory_writes_nothing() {
    let mut store = HostStore::new();
    store.ingest(&inventory(1, "x86_64", &["foo-1.0-1.x86_64"])).unwrap();
    let err = store.ingest(&inventory(1, "x86_64", &["nope"])).unwrap_err();
    assert_eq!(0, err.index);
    assert_eq!(Some(inventory(1, "x86_64", &["foo-1.0-1.x86_64"]).to_host().unwrap()), store.get_by_id(1));
}

#[test]
fn scenario_inventory_keeps_only_host_arch() {
    let h = inventory(1, "x86_64", &["foo-1.0-1.x86_64", "bar-2.0-1.noarch"]).to_host().unwrap();
    assert_eq!(1, h.id);
    assert_eq!("{\"package_list\":[\"foo-1.0-1.x86_64\"]}", h.request);
    assert_eq!("5e3e31db5e0c2b969a2e26e22565223e5ee0e87d9b909b815c04692aaf36aed7", h.checksum);
}

#[test]
fn hosts_response_of_list() {
    assert_eq!(HostsResponse::NotFound, hosts_response(Vec::new()));
    assert_eq!(HostsResponse::Found(vec![host(1, "a")]), hosts_response(vec![host(1, "a")]));
}

#[test]
fn bencher_reports_once_per_batch() {
    let mut b = Bencher::new(3);
    assert_eq!(None, b.save(10));
    assert_eq!(None, b.save(15));
    assert_eq!(Some(BatchReport { items: 3, elapsed: 20 }), b.save(30));
    assert_eq!(0, b.saved_count);
    assert_eq!(None, b.start_time);
    assert_eq!(None, b.save(40));
    assert_eq!(Some(40), b.start_time);
}

#[test]
fn bencher_batch_of_one() {
    let mut b = Bencher::new(1);
    assert_eq!(Some(BatchReport { items: 1, elapsed: 0 }), b.save(5));
    assert_eq!(Some(BatchReport { items: 1, elapsed: 0 }), b.save(9));
}

#[test]
fn list_path_returns_stale_records_unchecked() {
    let mut store = HostStore::new();
    let bad = Host { id: 2, request: "x".to_string(), checksum: "not a checksum".to_string() };
    store.upsert(bad.clone());
    store.upsert(host(5, "y"));
    assert_eq!(HostsResponse::Found(vec![bad, host(5, "y")]), store.all_hosts());
}
