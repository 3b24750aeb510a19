use std::collections::BTreeMap;

use inline_ipld::cid;
use inline_ipld::cid::BlockId;
use inline_ipld::codec::{CidVersion, Digester, Total};
use inline_ipld::extractor::Extractor;
use inline_ipld::inline::InlineIpld;
use inline_ipld::inliner::{AtLeastOnce, AtMostOnce, Naive};
use inline_ipld::iterator::{is_delimiter_next, PostOrderIpldIter};
use inline_ipld::node::{from_entries, Node};
use inline_ipld::store::{get_raw, put, GetRawError, MemoryStore, Store};

fn text(s: &str) -> Node {
    Node::Text(s.to_string())
}

fn num(i: i128) -> Node {
    Node::Integer(i)
}

fn list(items: Vec<Node>) -> Node {
    Node::List(items)
}

fn map(entries: Vec<(&str, Node)>) -> Node {
    from_entries(entries.into_iter().map(|(k, v)| (k.to_string(), v)).collect())
}

fn cid_of_str(s: &str) -> BlockId {
    BlockId::from_bytes(libipld::Cid::try_from(s).unwrap().to_bytes())
}

fn collect_blocks(inline: &InlineIpld) -> BTreeMap<Vec<u8>, Node> {
    let mut ext =
        Extractor::new(inline, Total::DagCbor, Digester::Sha2_256, CidVersion::V1).unwrap();
    let mut observed = BTreeMap::new();
    while let Some((id, node)) = ext.next() {
        observed.insert(id.to_bytes(), node);
    }
    observed
}

#[test]
fn extractor_store_identity_test() {
    let ipld = map(vec![
        (
            "a",
            list(vec![text("b"), num(1), num(2), map(vec![("c", text("d"))])]),
        ),
        (
            "e",
            map(vec![(
                "/",
                map(vec![("data", num(123)), ("don't match", num(42))]),
            )]),
        ),
    ]);

    let mut expected = BTreeMap::new();
    expected.insert(
        cid_of_str("bafyreie5xtjxubxwtytnuymfknf6ivzagr3grsj6bwf57lqohgydct3ite").to_bytes(),
        ipld.clone(),
    );

    let observed = collect_blocks(&InlineIpld::attest(ipld));
    assert_eq!(observed, expected);
}

#[test]
fn extractor_store_single_top_test() {
    let arr_cid = cid_of_str("bafyreickxqyrg7hhhdm2z24kduovd4k4vvbmfmenzn7nc6pxg6qzjm2v44");
    let inline = InlineIpld::new(arr_cid, list(vec![num(1), num(2), num(3)]));
    let observed = collect_blocks(&inline);

    let cid1 = cid_of_str("bafyreickxqyrg7hhhdm2z24kduovd4k4vvbmfmenzn7nc6pxg6qzjm2v44");
    let cid2 = cid_of_str("bafyreihnubkcms63243zlfgnwiugmk6ijitz63me7bqf455ia2fpbn4ceq");

    let mut expected = BTreeMap::new();
    expected.insert(cid1.to_bytes(), list(vec![num(1), num(2), num(3)]));
    expected.insert(cid2.to_bytes(), Node::Link(cid1));

    assert_eq!(observed, expected);
}

#[test]
fn extractor_store_single_top_linkful_test() {
    let arr_cid = cid_of_str("bafyreickxqyrg7hhhdm2z24kduovd4k4vvbmfmenzn7nc6pxg6qzjm2v44");
    let outer_cid = cid_of_str("bafyreihnubkcms63243zlfgnwiugmk6ijitz63me7bqf455ia2fpbn4ceq");

    let inline = InlineIpld::new(arr_cid.duplicate(), list(vec![num(1), num(2), num(3)]));
    let observed = collect_blocks(&inline);

    let mut expected = BTreeMap::new();
    expected.insert(arr_cid.to_bytes(), list(vec![num(1), num(2), num(3)]));
    expected.insert(outer_cid.to_bytes(), Node::Link(arr_cid));

    assert_eq!(observed, expected);
}

#[test]
fn extractor_store_single_not_top_test() {
    let ipld = list(vec![map(vec![(
        "/",
        map(vec![("data", list(vec![num(1), num(2), num(3)]))]),
    )])]);
    let observed = collect_blocks(&InlineIpld::attest(ipld));

    let cid1 = cid_of_str("bafyreickxqyrg7hhhdm2z24kduovd4k4vvbmfmenzn7nc6pxg6qzjm2v44");
    let cid2 = cid_of_str("bafyreic6rlmkazpohhul74xyu654gs4k37idb2uz6r7vurebasdi766kga");

    let mut expected = BTreeMap::new();
    expected.insert(cid1.to_bytes(), list(vec![num(1), num(2), num(3)]));
    expected.insert(cid2.to_bytes(), list(vec![Node::Link(cid1)]));

    assert_eq!(observed, expected);
}

#[test]
fn extractor_store_single_not_top_linkful_test() {
    let arr_cid = cid_of_str("bafyreickxqyrg7hhhdm2z24kduovd4k4vvbmfmenzn7nc6pxg6qzjm2v44");
    let outer_cid = cid_of_str("bafyreic6rlmkazpohhul74xyu654gs4k37idb2uz6r7vurebasdi766kga");

    let ipld = list(vec![map(vec![(
        "/",
        map(vec![
            ("data", list(vec![num(1), num(2), num(3)])),
            ("link", Node::Link(arr_cid.duplicate())),
        ]),
    )])]);
    let observed = collect_blocks(&InlineIpld::attest(ipld));

    let mut expected = BTreeMap::new();
    expected.insert(arr_cid.to_bytes(), list(vec![num(1), num(2), num(3)]));
    expected.insert(outer_cid.to_bytes(), list(vec![Node::Link(arr_cid)]));

    assert_eq!(observed, expected);
}

#[test]
fn extractor_store_nested_test() {
    let ipld = map(vec![(
        "/",
        map(vec![(
            "data",
            list(vec![
                num(1),
                map(vec![("/", map(vec![("data", list(vec![text("a"), text("b")]))]))]),
            ]),
        )]),
    )]);
    let observed = collect_blocks(&InlineIpld::attest(ipld));

    let cid1 = cid_of_str("bafyreia5h7xzw5e2wknxfzd5qmty3ebe452q7iwys6qo6lstpi5mlknkyu");
    let cid2 = cid_of_str("bafyreieytegtxlityotbbwbe3445s327jghqlbwyv7k7kxnpzjj7k3c6yu");
    let cid3 = cid_of_str("bafyreifxzbwbet5pqer5bopvf3wxgvooaijrhynk2wfoksygml6glk44m4");

    let mut expected = BTreeMap::new();
    expected.insert(cid1.to_bytes(), list(vec![text("a"), text("b")]));
    expected.insert(cid2.to_bytes(), list(vec![num(1), Node::Link(cid1)]));
    expected.insert(cid3.to_bytes(), Node::Link(cid2));

    assert_eq!(observed, expected);
}

#[test]
fn extractor_store_nested_linkful_test() {
    let inner_cid = cid_of_str("bafyreia5h7xzw5e2wknxfzd5qmty3ebe452q7iwys6qo6lstpi5mlknkyu");
    let mid_cid = cid_of_str("bafyreieytegtxlityotbbwbe3445s327jghqlbwyv7k7kxnpzjj7k3c6yu");
    let outer_cid = cid_of_str("bafyreifxzbwbet5pqer5bopvf3wxgvooaijrhynk2wfoksygml6glk44m4");

    let ipld = map(vec![(
        "/",
        map(vec![
            (
                "data",
                list(vec![
                    num(1),
                    map(vec![(
                        "/",
                        map(vec![
                            ("data", list(vec![text("a"), text("b")])),
                            ("link", Node::Link(inner_cid.duplicate())),
                        ]),
                    )]),
                ]),
            ),
            ("link", Node::Link(mid_cid.duplicate())),
        ]),
    )]);
    let observed = collect_blocks(&InlineIpld::attest(ipld));

    let mut expected = BTreeMap::new();
    expected.insert(inner_cid.to_bytes(), list(vec![text("a"), text("b")]));
    expected.insert(mid_cid.to_bytes(), list(vec![num(1), Node::Link(inner_cid)]));
    expected.insert(outer_cid.to_bytes(), Node::Link(mid_cid));

    assert_eq!(observed, expected);
}

#[test]
fn extractor_store_mixed_test() {
    let arr_cid = cid_of_str("bafyreia5h7xzw5e2wknxfzd5qmty3ebe452q7iwys6qo6lstpi5mlknkyu");
    let mid_cid = cid_of_str("bafyreifxzbwbet5pqer5bopvf3wxgvooaijrhynk2wfoksygml6glk44m4");
    let entry_cid = cid_of_str("bafyreihxkjjf3kxhwiozngod4zlbhwzqqybn2f6fm5lot7xfobjiuxg63m");
    // The root identifier hashes the codec's own byte encoding, so it
    // depends on the key order DagCborCodec writes maps in: libipld 0.8
    // writes byte-lexicographic key order.
    let outer_cid = cid_of_str("bafyreifuphqqhnkevqqcgy3zrwghxmhk5k35oydzeols3rzolhesd4r4wa");

    let ipld = map(vec![
        (
            "entry",
            map(vec![(
                "/",
                map(vec![(
                    "data",
                    list(vec![
                        num(1),
                        map(vec![(
                            "/",
                            map(vec![
                                ("data", list(vec![text("a"), text("b")])),
                                ("link", Node::Link(arr_cid.duplicate())),
                            ]),
                        )]),
                        num(2),
                        num(3),
                    ]),
                )]),
            )]),
        ),
        ("more", list(vec![text("hello"), text("world")])),
        (
            "don't match",
            map(vec![(
                "/",
                map(vec![
                    ("data", list(vec![num(4), num(5), num(6)])),
                    ("breaks!", text("NOPE!")),
                    (
                        "do match",
                        map(vec![(
                            "/",
                            map(vec![
                                ("data", list(vec![num(7), num(8), num(9)])),
                                ("link", Node::Link(mid_cid.duplicate())),
                            ]),
                        )]),
                    ),
                ]),
            )]),
        ),
    ]);
    let observed = collect_blocks(&InlineIpld::attest(ipld));

    let mut expected = BTreeMap::new();
    expected.insert(arr_cid.to_bytes(), list(vec![text("a"), text("b")]));
    expected.insert(mid_cid.to_bytes(), list(vec![num(7), num(8), num(9)]));
    expected.insert(
        entry_cid.to_bytes(),
        list(vec![num(1), Node::Link(arr_cid.duplicate()), num(2), num(3)]),
    );
    expected.insert(
        outer_cid.to_bytes(),
        map(vec![
            ("entry", Node::Link(entry_cid)),
            ("more", list(vec![text("hello"), text("world")])),
            (
                "don't match",
                map(vec![(
                    "/",
                    map(vec![
                        ("breaks!", text("NOPE!")),
                        ("data", list(vec![num(4), num(5), num(6)])),
                        ("do match", Node::Link(mid_cid)),
                    ]),
                )]),
            ),
        ]),
    );

    assert_eq!(observed, expected);
}

#[test]
fn post_order_poii_test() {
    let the_cid = cid_of_str("bafyreifxzbwbet5pqer5bopvf3wxgvooaijrhynk2wfoksygml6glk44m4");

    let linkless_array = list(vec![text("world"), num(123), num(456)]);
    let linkful_array = list(vec![num(99), text("hello")]);
    let string_map = map(vec![
        ("bar", text("bar-val")),
        ("baz", text("baz-val")),
        ("foo", text("foo-val")),
    ]);
    let linkless = map(vec![("/", map(vec![("data", linkless_array.clone())]))]);
    let linkful = map(vec![(
        "/",
        map(vec![
            ("link", Node::Link(the_cid.duplicate())),
            ("data", linkful_array.clone()),
        ]),
    )]);
    let inlines = map(vec![
        ("computes the cid", linkless.clone()),
        ("uses existing cid", linkful.clone()),
    ]);
    let outer_array = list(vec![inlines.clone(), string_map.clone()]);
    let ipld = map(vec![("Here goes", outer_array.clone())]);

    let expected: Vec<Node> = vec![
        text("world"),
        num(123),
        num(456),
        linkless_array.clone(),
        map(vec![("data", linkless_array)]),
        linkless,
        num(99),
        text("hello"),
        linkful_array.clone(),
        Node::Link(the_cid.duplicate()),
        map(vec![
            ("link", Node::Link(the_cid)),
            ("data", linkful_array),
        ]),
        linkful,
        inlines,
        text("bar-val"),
        text("baz-val"),
        text("foo-val"),
        string_map,
        outer_array,
        ipld.clone(),
    ];

    let mut observed: Vec<Node> = vec![];
    let mut poii = PostOrderIpldIter::new(&ipld);
    while let Some(node) = poii.next() {
        observed.push(node);
    }

    assert_eq!(observed, expected);
}

#[test]
fn happy_little_test() {
    let store = MemoryStore::new();
    let c = AtLeastOnce::new(list(vec![num(1), num(2), num(3)]));
    match c.run(&store) {
        Ok(_) => assert!(true),
        Err(_) => assert!(true),
    }

    assert!(true);
}

#[test]
fn delimiter_next_test() {
    let dag = map(vec![("/", num(123))]);
    let mut poii = PostOrderIpldIter::new(&dag);
    poii.next();
    assert!(is_delimiter_next(&poii));
}

#[test]
fn cid_new_known_vector_test() {
    let observed = cid::new(
        &list(vec![num(1), num(2), num(3)]),
        Total::DagCbor,
        Digester::Sha2_256,
        CidVersion::V1,
    )
    .unwrap();
    let expected = cid_of_str("bafyreickxqyrg7hhhdm2z24kduovd4k4vvbmfmenzn7nc6pxg6qzjm2v44");
    assert_eq!(observed.to_bytes(), expected.to_bytes());
}

#[test]
fn cid_new_version_zero_is_refused_test() {
    let r = cid::new(
        &list(vec![num(1), num(2), num(3)]),
        Total::DagCbor,
        Digester::Sha2_256,
        CidVersion::V0,
    );
    assert_eq!(r, Err(cid::Error::ConstructionError));
}

#[test]
fn cid_new_integer_out_of_cbor_range_test() {
    let too_big = Node::Integer(i128::MAX);
    let r = cid::new(&too_big, Total::DagCbor, Digester::Sha2_256, CidVersion::V1);
    assert_eq!(r, Err(cid::Error::EncodingError));

    let json = cid::new(&too_big, Total::DagJson, Digester::Sha2_256, CidVersion::V1);
    assert!(json.is_ok());
}

#[test]
fn extractor_root_block_is_last_test() {
    let ipld = map(vec![("/", map(vec![("data", list(vec![num(1), num(2), num(3)]))]))]);
    let inline = InlineIpld::attest(ipld);
    let mut ext =
        Extractor::new(&inline, Total::DagCbor, Digester::Sha2_256, CidVersion::V1).unwrap();

    let first = ext.next().unwrap();
    let second = ext.next().unwrap();
    assert!(ext.next().is_none());

    let arr_cid = cid_of_str("bafyreickxqyrg7hhhdm2z24kduovd4k4vvbmfmenzn7nc6pxg6qzjm2v44");
    let root_cid = cid_of_str("bafyreihnubkcms63243zlfgnwiugmk6ijitz63me7bqf455ia2fpbn4ceq");
    assert_eq!(first.0.to_bytes(), arr_cid.to_bytes());
    assert_eq!(first.1, list(vec![num(1), num(2), num(3)]));
    assert_eq!(second.0.to_bytes(), root_cid.to_bytes());
    assert_eq!(second.1, Node::Link(arr_cid));
}

#[test]
fn get_raw_encodes_stored_block_test() {
    let mut store = MemoryStore::new();
    let id = put(
        &mut store,
        list(vec![num(1), num(2), num(3)]),
        Total::DagCbor,
        Digester::Sha2_256,
        CidVersion::V1,
    )
    .unwrap();
    let observed = get_raw(&store, &id).unwrap();
    assert_eq!(observed, vec![0x83u8, 1, 2, 3]);
}

#[test]
fn inliner_resolve_test() {
    let mut store = MemoryStore::new();
    let missing = cid_of_str("bafyreickxqyrg7hhhdm2z24kduovd4k4vvbmfmenzn7nc6pxg6qzjm2v44");

    let dag = map(vec![("a", num(1)), ("b", Node::Link(missing.duplicate()))]);
    let stuck = AtLeastOnce::new(dag).run(&store).err().unwrap();
    assert_eq!(stuck.needs().to_bytes(), missing.to_bytes());

    let resumed = stuck.resolve(list(vec![num(1), num(2), num(3)]), &mut store);
    let observed = resumed.run(&store).ok().unwrap().into_node();

    let expected = map(vec![
        ("a", num(1)),
        (
            "b",
            map(vec![(
                "/",
                map(vec![
                    ("data", list(vec![num(1), num(2), num(3)])),
                    ("link", Node::Link(missing.duplicate())),
                ]),
            )]),
        ),
    ]);
    assert_eq!(observed, expected);
    assert_eq!(
        store.get(&missing).unwrap(),
        &list(vec![num(1), num(2), num(3)])
    );
}

#[test]
fn inliner_ignore_test() {
    let store = MemoryStore::new();
    let missing = cid_of_str("bafyreickxqyrg7hhhdm2z24kduovd4k4vvbmfmenzn7nc6pxg6qzjm2v44");

    let dag = map(vec![("a", num(1)), ("b", Node::Link(missing.duplicate()))]);
    let stuck = AtLeastOnce::new(dag.clone()).run(&store).err().unwrap();
    let observed = stuck.ignore().run(&store).ok().unwrap().into_node();
    assert_eq!(observed, dag);
}

#[test]
fn inliner_stub_does_not_store_test() {
    let store = MemoryStore::new();
    let missing = cid_of_str("bafyreickxqyrg7hhhdm2z24kduovd4k4vvbmfmenzn7nc6pxg6qzjm2v44");

    let dag = list(vec![Node::Link(missing.duplicate())]);
    let stuck = AtLeastOnce::new(dag).run(&store).err().unwrap();
    let observed = stuck.stub(num(7)).run(&store).ok().unwrap().into_node();

    let expected = list(vec![map(vec![(
        "/",
        map(vec![("data", num(7)), ("link", Node::Link(missing.duplicate()))]),
    )])]);
    assert_eq!(observed, expected);
    assert!(store.get(&missing).is_err());
}

#[test]
fn naive_keeps_missing_links_test() {
    let store = MemoryStore::new();
    let missing = cid_of_str("bafyreickxqyrg7hhhdm2z24kduovd4k4vvbmfmenzn7nc6pxg6qzjm2v44");

    let dag = map(vec![("a", num(1)), ("b", Node::Link(missing.duplicate()))]);
    let observed = Naive::new(dag.clone()).run(&store).into_node();
    assert_eq!(observed, dag);
}

#[test]
fn naive_expands_stored_links_test() {
    let mut store = MemoryStore::new();
    let id = put(
        &mut store,
        list(vec![num(1), num(2), num(3)]),
        Total::DagCbor,
        Digester::Sha2_256,
        CidVersion::V1,
    )
    .unwrap();

    let dag = list(vec![Node::Link(id.duplicate())]);
    let observed = Naive::new(dag).run(&store).into_node();

    let expected = list(vec![map(vec![(
        "/",
        map(vec![
            ("data", list(vec![num(1), num(2), num(3)])),
            ("link", Node::Link(id)),
        ]),
    )])]);
    assert_eq!(observed, expected);
}

#[test]
fn at_most_once_keeps_repeated_links_test() {
    let mut store = MemoryStore::new();
    let id = put(
        &mut store,
        list(vec![num(1), num(2), num(3)]),
        Total::DagCbor,
        Digester::Sha2_256,
        CidVersion::V1,
    )
    .unwrap();

    let dag = list(vec![Node::Link(id.duplicate()), Node::Link(id.duplicate())]);
    let observed = AtMostOnce::new(dag).run(&store).ok().unwrap().into_node();

    let expected = list(vec![
        map(vec![(
            "/",
            map(vec![
                ("data", list(vec![num(1), num(2), num(3)])),
                ("link", Node::Link(id.duplicate())),
            ]),
        )]),
        Node::Link(id),
    ]);
    assert_eq!(observed, expected);
}

#[test]
fn from_entries_sorts_and_shadows_test() {
    let unsorted = map(vec![("b", num(2)), ("a", num(1))]);
    let sorted = map(vec![("a", num(1)), ("b", num(2))]);
    assert_eq!(unsorted, sorted);

    let shadowed = map(vec![("k", num(1)), ("k", num(2))]);
    assert_eq!(shadowed, map(vec![("k", num(2))]));
}

#[test]
fn wrap_with_link_computes_canonical_cid_test() {
    let payload = list(vec![num(1), num(2), num(3)]);
    let inline =
        InlineIpld::wrap_with_link(Total::DagCbor, Digester::Sha2_256, payload.clone()).unwrap();
    let expected = cid_of_str("bafyreickxqyrg7hhhdm2z24kduovd4k4vvbmfmenzn7nc6pxg6qzjm2v44");
    assert_eq!(inline.cid().unwrap().to_bytes(), expected.to_bytes());

    let observed = collect_blocks(&inline);
    let root_cid = cid_of_str("bafyreihnubkcms63243zlfgnwiugmk6ijitz63me7bqf455ia2fpbn4ceq");
    let mut expected_blocks = BTreeMap::new();
    expected_blocks.insert(expected.to_bytes(), payload);
    expected_blocks.insert(root_cid.to_bytes(), Node::Link(expected));
    assert_eq!(observed, expected_blocks);
}

#[test]
fn extract_then_inline_round_trip_test() {
    let doc = map(vec![
        ("left", list(vec![num(1), text("x")])),
        ("right", map(vec![("k", num(2))])),
    ]);

    let mut store = MemoryStore::new();
    let root_id = put(
        &mut store,
        doc.clone(),
        Total::DagCbor,
        Digester::Sha2_256,
        CidVersion::V1,
    )
    .unwrap();

    let inlined = Naive::new(Node::Link(root_id.duplicate())).run(&store).into_node();
    let expected = map(vec![(
        "/",
        map(vec![("data", doc.clone()), ("link", Node::Link(root_id.duplicate()))]),
    )]);
    assert_eq!(inlined, expected);

    let observed = collect_blocks(&InlineIpld::attest(inlined));
    assert_eq!(observed.get(&root_id.to_bytes()), Some(&doc));
}

#[test]
fn get_raw_not_found_test() {
    let store = MemoryStore::new();
    let id = cid_of_str("bafyreickxqyrg7hhhdm2z24kduovd4k4vvbmfmenzn7nc6pxg6qzjm2v44");
    assert!(matches!(
        get_raw(&store, &id),
        Err(GetRawError::NotFound(_))
    ));
}

#[test]
fn get_raw_encode_failed_test() {
    let mut store = MemoryStore::new();
    let id = cid_of_str("bafyreickxqyrg7hhhdm2z24kduovd4k4vvbmfmenzn7nc6pxg6qzjm2v44");
    store.put_keyed(id.duplicate(), Node::Integer(i128::MAX));
    assert!(matches!(get_raw(&store, &id), Err(GetRawError::EncodeFailed)));
}

#[test]
fn at_most_once_ignore_then_dedup_test() {
    let store = MemoryStore::new();
    let missing = cid_of_str("bafyreickxqyrg7hhhdm2z24kduovd4k4vvbmfmenzn7nc6pxg6qzjm2v44");

    let dag = list(vec![
        Node::Link(missing.duplicate()),
        Node::Link(missing.duplicate()),
    ]);
    let stuck = AtMostOnce::new(dag.clone()).run(&store).err().unwrap();
    assert_eq!(stuck.needs().to_bytes(), missing.to_bytes());

    let observed = stuck.ignore().run(&store).ok().unwrap().into_node();
    assert_eq!(observed, dag);
}

#[test]
fn inline_ipld_cid_views_test() {
    let inherit = InlineIpld::new_inherit_link(list(vec![num(1)]));
    assert!(inherit.cid().is_none());
    assert_eq!(
        inherit.node(),
        &map(vec![("/", map(vec![("data", list(vec![num(1)]))]))])
    );

    let attested = InlineIpld::attest(num(5));
    assert!(attested.cid().is_none());
    assert_eq!(attested.into_node(), num(5));
}

#[test]
fn empty_document_extracts_to_single_block_test() {
    let empty_map = map(vec![]);
    let observed = collect_blocks(&InlineIpld::attest(empty_map.clone()));
    assert_eq!(observed.len(), 1);
    assert_eq!(observed.values().next().unwrap(), &empty_map);

    let empty_list = list(vec![]);
    let observed = collect_blocks(&InlineIpld::attest(empty_list.clone()));
    assert_eq!(observed.len(), 1);
    assert_eq!(observed.values().next().unwrap(), &empty_list);
}

#[test]
fn cbor_integer_boundaries_test() {
    let max_ok = Node::Integer(u64::MAX as i128);
    assert!(cid::new(&max_ok, Total::DagCbor, Digester::Sha2_256, CidVersion::V1).is_ok());

    let min_ok = Node::Integer(-(u64::MAX as i128) - 1);
    assert!(cid::new(&min_ok, Total::DagCbor, Digester::Sha2_256, CidVersion::V1).is_ok());

    let too_big = Node::Integer(u64::MAX as i128 + 1);
    assert_eq!(
        cid::new(&too_big, Total::DagCbor, Digester::Sha2_256, CidVersion::V1),
        Err(cid::Error::EncodingError)
    );

    let too_small = Node::Integer(-(u64::MAX as i128) - 2);
    assert_eq!(
        cid::new(&too_small, Total::DagCbor, Digester::Sha2_256, CidVersion::V1),
        Err(cid::Error::EncodingError)
    );
}

#[test]
fn cid_new_dag_json_vector_test() {
    let observed = cid::new(
        &list(vec![num(1), num(2), num(3)]),
        Total::DagJson,
        Digester::Sha2_256,
        CidVersion::V1,
    )
    .unwrap();
    let expected = cid_of_str("baguqeerauyk65lxcdxsrphpaqdpiymcszdnjaejyibv2ohbyyaziix35kt2a");
    assert_eq!(observed.to_bytes(), expected.to_bytes());
}
