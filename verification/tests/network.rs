use attribute_search_engine::EngineIndex;
use attribute_search_engine::IdSet;
use attribute_search_engine::SearchEngine;
use attribute_search_engine::SearchIndexBTreeRange;
use attribute_search_engine::SearchIndexHashMap;
use attribute_search_engine::SearchIndexPrefixTree;

fn idset(vals: &[u8]) -> IdSet<u8> {
    let mut s = IdSet::new();
    for v in vals {
        s.insert(*v);
    }
    s
}

fn create_network_search_engine() -> SearchEngine<u8> {
    let mut index_name = SearchIndexHashMap::<u8, String>::new();
    let mut index_os = SearchIndexHashMap::<u8, String>::new();
    let mut index_ip4 = SearchIndexPrefixTree::<u8>::new();
    let mut index_uptime = SearchIndexBTreeRange::<u8, u64>::new();
    let mut index_user = SearchIndexHashMap::<u8, String>::new();

    let systems: Vec<(u8, &str, &str, &str, u64, Vec<&str>)> = vec![
        (0, "gateway", "Router", "192.168.0.1", 4323, vec!["root"]),
        (1, "firewall-01", "Debian", "192.168.0.11", 1133, vec!["root"]),
        (2, "firewall-02", "Debian", "192.168.0.12", 4567, vec!["root"]),
        (3, "router-dmz", "Router", "192.168.10.1", 2134, vec!["root"]),
        (4, "router-intern", "Router", "192.168.20.1", 4534, vec!["root"]),
        (5, "router-guests", "Router", "192.168.30.1", 1313, vec!["root"]),
        (6, "web-01", "Alpine", "192.168.10.2", 2345, vec!["root", "webmaster", "alex"]),
        (7, "web-02", "Alpine", "192.168.10.3", 8543, vec!["root", "webmaster", "alex", "peter"]),
        (8, "web-03", "Alpine", "192.168.10.4", 2355, vec!["root", "webmaster", "peter"]),
        (9, "mail", "Debian", "192.168.10.5", 2243, vec!["root", "postmaster", "alex", "peter", "hans"]),
        (10, "backups", "Debian", "192.168.20.3", 5322, vec!["root", "backup"]),
        (11, "fileshare", "Debian", "192.168.20.4", 9132, vec!["root", "alex", "peter", "hans"]),
        (12, "hotspot-users", "Router", "192.168.20.2", 1346, vec!["root"]),
        (13, "hotspot-guests", "Router", "192.168.30.2", 4232, vec!["root"]),
        (14, "workstation-01", "Win", "192.168.20.5", 134, vec!["root", "alex"]),
        (15, "workstation-02", "Win", "192.168.20.6", 15, vec!["root", "peter"]),
        (16, "workstation-03", "Win", "192.168.20.7", 112, vec!["root", "hans"]),
    ];

    for (id, name, os, ip, uptime, users) in systems {
        index_name.insert(id, name.into());
        index_os.insert(id, os.into());
        index_ip4.insert(id, ip.into());
        index_uptime.insert(id, uptime);
        for user in users {
            index_user.insert(id, user.into());
        }
    }

    let mut engine = SearchEngine::new();
    engine.add_index("name", EngineIndex::HashText(index_name));
    engine.add_index("os", EngineIndex::HashText(index_os));
    engine.add_index("ip4", EngineIndex::Prefix(index_ip4));
    engine.add_index("uptime", EngineIndex::RangeU64(index_uptime));
    engine.add_index("user", EngineIndex::HashText(index_user));

    engine
}

fn run(query: &str) -> IdSet<u8> {
    let engine = create_network_search_engine();
    let (q, _) = engine.query_from_str(query).expect("valid query");
    engine.search(&q).expect("no errors during search")
}

#[test]
fn empty() {
    assert!(run("").set_eq(&idset(&[])));
}

#[test]
fn name_web_01() {
    assert!(run("+name:web-01").set_eq(&idset(&[6])));
}

#[test]
fn name_web_01_02_03() {
    assert!(run("+name:web-01,web-02,web-03").set_eq(&idset(&[6, 7, 8])));
}

#[test]
fn os_router() {
    assert!(run("+os:Router").set_eq(&idset(&[0, 3, 4, 5, 12, 13])));
}

#[test]
fn os_debian_alpine() {
    assert!(run("+os:Debian,Alpine").set_eq(&idset(&[1, 2, 6, 7, 8, 9, 10, 11])));
}

#[test]
fn ip4_single_match() {
    assert!(run("+ip4:192.168.10.1").set_eq(&idset(&[3])));
}

#[test]
fn ip4_multi_match() {
    assert!(run("+ip4:192.168.0.1").set_eq(&idset(&[0, 1, 2])));
}

#[test]
fn ip4_exact_match() {
    assert!(run("+ip4:=192.168.0.1").set_eq(&idset(&[0])));
}

#[test]
fn ip4_dmz() {
    assert!(run("+ip4:192.168.10.").set_eq(&idset(&[3, 6, 7, 8, 9])));
}

#[test]
fn ip4_exact_dmz() {
    assert!(run("+ip4:=192.168.10.").set_eq(&idset(&[])));
}

#[test]
fn uptime_eq_1133() {
    assert!(run("+uptime:1133").set_eq(&idset(&[1])));
}

#[test]
fn uptime_eq_2134_15() {
    assert!(run("+uptime:=2134,=15").set_eq(&idset(&[3, 15])));
}

#[test]
fn uptime_lt_1000() {
    assert!(run("+uptime:<1000").set_eq(&idset(&[14, 15, 16])));
}

#[test]
fn uptime_gt_8000() {
    assert!(run("+uptime:>8000").set_eq(&idset(&[7, 11])));
}

#[test]
fn uptime_4000_5000() {
    assert!(run("+uptime:4000-5000").set_eq(&idset(&[0, 2, 4, 13])));
}

#[test]
fn user_root() {
    assert!(run("+user:root").set_eq(&idset(&[
        0, 1, 2, 3, 4, 5, 6, 7, 8, 9, 10, 11, 12, 13, 14, 15, 16
    ])));
}

#[test]
fn user_alex() {
    assert!(run("+user:alex").set_eq(&idset(&[6, 7, 9, 11, 14])));
}

#[test]
fn user_alex_peter() {
    assert!(run("+user:alex,peter").set_eq(&idset(&[6, 7, 8, 9, 11, 14, 15])));
}

#[test]
fn user_alex_peter_not_hans() {
    assert!(run("+user:alex,peter -user:hans").set_eq(&idset(&[6, 7, 8, 14, 15])));
}

#[test]
fn complex_dmz_not_alpine() {
    assert!(run("+ip4:192.168.10. -os:Alpine").set_eq(&idset(&[3, 9])));
}

#[test]
fn complex_alex_not_win() {
    assert!(run("+user:alex -os:Win").set_eq(&idset(&[6, 7, 9, 11])));
}

#[test]
fn complex_alex_intern_not_win() {
    assert!(run("+user:alex +ip4:192.168.20. -os:Win").set_eq(&idset(&[11])));
}
