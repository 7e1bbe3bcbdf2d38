//! The edge store: online inserts, backlink queries, bulk building.

use stract::webgraph::{Edge, EdgeStore, HostBacklinksQuery, Node, RelFlags};
use stract::webgraph_writer::{Compression, EdgeStoreWriter, InnerEdge};

fn edge(from: &Node, to: &Node, label: &str, centrality: f64) -> Edge {
    Edge {
        from: Node::from(std::str::from_utf8(&from.name).unwrap()),
        to: Node::from(std::str::from_utf8(&to.name).unwrap()),
        label: label.to_string(),
        rel_flags: RelFlags::default(),
        combined_centrality: centrality.to_bits(),
    }
}

#[test]
fn test_edge_ordering() {
    let a = Node::from("https://www.first.com").into_host();
    let b = Node::from("https://www.second.com").into_host();
    let c = Node::from("https://www.third.com").into_host();
    let d = Node::from("https://www.fourth.com").into_host();

    let a_centrality = 1.0;
    let b_centrality = 2.0;
    let c_centrality = 3.0;
    let d_centrality = 4.0;
    let mut store = EdgeStore::open();

    let e1 = edge(&b, &a, "test", a_centrality + b_centrality);
    let e2 = edge(&c, &a, "2", a_centrality + c_centrality);
    let e3 = edge(&d, &a, "3", a_centrality + d_centrality);

    store.insert(e1.clone_edge()).unwrap();
    store.insert(e2.clone_edge()).unwrap();
    store.insert(e3.clone_edge()).unwrap();

    let query = HostBacklinksQuery::new(a.id());
    let res = store.search(&query).unwrap();
    let edges = store.retrieve(&query, res).unwrap();

    assert_eq!(edges.len(), 3);

    assert_eq!(edges[0].from, e2.from.id());
    assert_eq!(edges[1].from, e3.from.id());
    assert_eq!(edges[2].from, e1.from.id());
}

#[test]
fn host_of_url() {
    let n = Node::from("https://www.example.com/path/page").into_host();
    assert_eq!(n.name, b"www.example.com".to_vec());
    let bare = Node::from("example.org").into_host();
    assert_eq!(bare.name, b"example.org".to_vec());
}

#[test]
fn bulk_writer_groups_sorted_and_deduplicated() {
    // edges into two hosts, inserted unordered and with one duplicate
    let mut writer = EdgeStoreWriter::new(Compression::Uncompressed, true);
    let hosts = ["h.one", "h.two", "h.three", "h.four"];
    let inner = |from: &str, to: &str, label: &str| InnerEdge {
        from: Node::from(from),
        to: Node::from(to),
        label: label.to_string(),
    };
    writer.put(inner(hosts[1], hosts[0], "x"));
    writer.put(inner(hosts[2], hosts[0], "y"));
    writer.put(inner(hosts[1], hosts[0], "dup"));
    writer.put(inner(hosts[3], hosts[2], "z"));
    let store = writer.finalize();

    let target = Node::from(hosts[0]).id();
    let res = store.search(&HostBacklinksQuery::new(target)).unwrap();
    let edges = store.retrieve(&HostBacklinksQuery::new(target), res).unwrap();
    assert_eq!(edges.len(), 2);
    // sorted by source id, deduplicated
    assert!(edges[0].from.raw < edges[1].from.raw);
    let mut expected = vec![Node::from(hosts[1]).id().raw, Node::from(hosts[2]).id().raw];
    expected.sort();
    assert_eq!(vec![edges[0].from.raw, edges[1].from.raw], expected);

    let other = Node::from(hosts[2]).id();
    let res = store.search(&HostBacklinksQuery::new(other)).unwrap();
    let edges = store.retrieve(&HostBacklinksQuery::new(other), res).unwrap();
    assert_eq!(edges.len(), 1);
    assert_eq!(edges[0].from, Node::from(hosts[3]).id());

    let absent = Node::from(hosts[3]).id();
    let res = store.search(&HostBacklinksQuery::new(absent)).unwrap();
    assert_eq!(res.len(), 0);
}

#[test]
fn edges_iterate_in_store_order() {
    let mut store = EdgeStore::open();
    store
        .insert(edge(&Node::from("a.com"), &Node::from("b.com"), "t", 0.0))
        .unwrap();
    store.commit().unwrap();
    store
        .insert(edge(&Node::from("c.com"), &Node::from("d.com"), "u", 0.0))
        .unwrap();
    let mut iter = stract::webgraph::SmallSegmentEdgesIter::new(&store, 0, 10);
    let first = iter.next().unwrap();
    assert_eq!(first.from, Node::from("a.com").id());
    assert_eq!(first.to, Node::from("b.com").id());
    let second = iter.next().unwrap();
    assert_eq!(second.from, Node::from("c.com").id());
    assert!(iter.next().is_none());
}

#[test]
fn host_iterators_deduplicate() {
    let mut store = EdgeStore::open();
    let e = |f: &str, t: &str, l: &str| edge(&Node::from(f), &Node::from(t), l, 0.0);
    store.insert(e("a.com", "b.com", "one")).unwrap();
    store.insert(e("a.com", "b.com", "two")).unwrap();
    store.insert(e("b.com", "c.com", "three")).unwrap();

    // pages keep every edge; hosts keep one per (from, to) pair
    assert_eq!(store.iter_pages_small().len(), 3);
    let hosts = store.iter_hosts_small();
    assert_eq!(hosts.len(), 2);
    assert_eq!(hosts[0].from, Node::from("a.com").id());
    assert_eq!(hosts[1].to, Node::from("c.com").id());

    // node ids come out once each, clipped to the asked range
    let ids = store.iter_page_node_ids(0, 10);
    assert_eq!(ids.len(), 3);
    let first_two = store.iter_page_node_ids(0, 1);
    assert_eq!(first_two.len(), 2);
    assert_eq!(store.iter_host_node_ids(5, 10).len(), 0);
}
