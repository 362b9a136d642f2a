use cfa::graph_builder::{
    decide_connections_from, distance_queries, edges_from_responses, merge_edges,
    ConnectionLists, DistanceResponse, Duration, Edge, Edges, ElementObject, RowObject,
};
use cfa::locator::{
    index_profiles, CfaProfiles, Coordinates, Hours, LocatorProfile, Meta, StreetAddress,
};

fn site(id: &str, place: Option<&str>) -> LocatorProfile {
    LocatorProfile {
        googlePlaceId: place.map(|p| p.to_string()),
        address: StreetAddress {
            city: None,
            countryCode: None,
            extraDescription: None,
            line1: None,
            line2: None,
            line3: None,
            postalCode: None,
            region: None,
            sublocality: None,
        },
        yextRoutableCoordinate: Coordinates { lat: format!("1.{}", id), long: format!("-2.{}", id) },
        c_conceptCode: String::new(),
        c_status: "OPEN".to_string(),
        c_locationSubtypeCode: "FSU".to_string(),
        c_carryout: true,
        c_fullDineIn: false,
        c_limitedDineIn: false,
        c_locationName: String::new(),
        hours: Hours { normalHours: vec![] },
        mainPhone: None,
        meta: Meta { id: id.to_string() },
    }
}

fn ids(v: &[&str]) -> Vec<String> {
    v.iter().map(|s| s.to_string()).collect()
}

fn answer(times: &[i64]) -> DistanceResponse {
    DistanceResponse {
        status: "OK".to_string(),
        destination_addresses: vec![],
        rows: vec![RowObject {
            elements: times
                .iter()
                .map(|t| ElementObject { status: "OK".to_string(), duration: Duration { value: *t } })
                .collect(),
        }],
    }
}

fn three_sites() -> CfaProfiles {
    index_profiles(vec![site("a", None), site("b", None), site("c", None)])
}

#[test]
fn connections_join_near_sites_but_never_a_site_to_itself() {
    let t = three_sites();
    let near = vec![
        vec![true, true, false],
        vec![true, true, true],
        vec![false, true, true],
    ];
    let c = decide_connections_from(&t, &near);
    assert_eq!(c.len(), 3);
    assert_eq!(c.get("a").unwrap(), &ids(&["b"]));
    assert_eq!(c.get("b").unwrap(), &ids(&["a", "c"]));
    assert_eq!(c.get("c").unwrap(), &ids(&["b"]));
}

#[test]
fn sites_without_near_neighbours_get_no_list() {
    let t = three_sites();
    let near = vec![
        vec![true, false, false],
        vec![false, true, true],
        vec![false, true, true],
    ];
    let c = decide_connections_from(&t, &near);
    assert_eq!(c.len(), 2);
    assert!(!c.contains_key("a"));
}

#[test]
fn connections_are_mutual_when_nearness_is() {
    let t = three_sites();
    let near = vec![
        vec![false, true, true],
        vec![true, false, false],
        vec![true, false, false],
    ];
    let c = decide_connections_from(&t, &near);
    for i in 0..c.len() {
        let k = c.key_at(i);
        for x in c.value_at(i) {
            assert!(c.get(x).unwrap().contains(k));
        }
    }
}

fn seven_connections() -> (CfaProfiles, ConnectionLists) {
    let mut sites = vec![site("s", Some("PS"))];
    for n in 0..7 {
        sites.push(site(&format!("d{}", n), None));
    }
    let t = index_profiles(sites);
    let mut c = ConnectionLists::new();
    c.insert("s".to_string(), ids(&["d0", "d1", "d2", "d3", "d4", "d5", "d6"]));
    c.insert("d0".to_string(), vec![]);
    (t, c)
}

#[test]
fn queries_come_in_chunks_of_five() {
    let (t, c) = seven_connections();
    let q = distance_queries(&ids(&["s", "d0"]), &t, &c);
    assert_eq!(q.len(), 2);
    assert_eq!(q[0].site, "s");
    assert_eq!(q[0].chunk_idx, 0);
    assert_eq!(q[0].origin, "place_id:PS");
    assert_eq!(q[0].destinations, "1.d0,-2.d0|1.d1,-2.d1|1.d2,-2.d2|1.d3,-2.d3|1.d4,-2.d4");
    assert_eq!(q[1].chunk_idx, 1);
    assert_eq!(q[1].destinations, "1.d5,-2.d5|1.d6,-2.d6");
}

#[test]
fn answers_become_edges_of_their_site() {
    let (t, c) = seven_connections();
    let q = distance_queries(&ids(&["s"]), &t, &c);
    let r = vec![Some(answer(&[10, 11, 12, 13, 14])), Some(answer(&[15, 16]))];
    let e = edges_from_responses(&q, &r, &c);
    let list = e.get("s").unwrap();
    assert_eq!(list.len(), 7);
    assert_eq!(list[0].node, "d0");
    assert_eq!(list[0].distance, 10);
    assert_eq!(list[6].node, "d6");
    assert_eq!(list[6].distance, 16);
}

#[test]
fn failed_or_empty_answers_add_nothing() {
    let (t, c) = seven_connections();
    let q = distance_queries(&ids(&["s"]), &t, &c);
    let empty = DistanceResponse { status: "ZERO_RESULTS".to_string(), destination_addresses: vec![], rows: vec![] };
    let r = vec![None, Some(empty)];
    let e = edges_from_responses(&q, &r, &c);
    assert_eq!(e.len(), 0);
    let r2 = vec![None, Some(answer(&[15, 16]))];
    let e2 = edges_from_responses(&q, &r2, &c);
    let list = e2.get("s").unwrap();
    assert_eq!(list.len(), 2);
    assert_eq!(list[0].node, "d5");
    assert_eq!(list[1].node, "d6");
}

#[test]
fn merge_edges_prefers_the_second_table() {
    let mut a = Edges::new();
    a.insert("x".to_string(), vec![Edge { node: "y".to_string(), distance: 1 }]);
    let mut b = Edges::new();
    b.insert("x".to_string(), vec![Edge { node: "z".to_string(), distance: 2 }]);
    b.insert("w".to_string(), vec![]);
    let m = merge_edges(a, b);
    assert_eq!(m.len(), 2);
    assert_eq!(m.get("x").unwrap()[0].node, "z");
}

#[test]
fn merge_with_an_empty_table_changes_nothing() {
    let mut a = Edges::new();
    a.insert("x".to_string(), vec![Edge { node: "y".to_string(), distance: 1 }]);
    let m = merge_edges(a, Edges::new());
    assert_eq!(m.len(), 1);
    assert_eq!(m.get("x").unwrap()[0].distance, 1);
}
