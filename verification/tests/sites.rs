use cfa::graph_builder::location_str_from;
use cfa::locator::{
    add_located, index_profiles, merge_locations, CfaProfiles, Coordinates, DayHour,
    DayHourInterval, Entity, Hours, LocatorJson, LocatorProfile, LocatorResponse, MainPhone, Meta,
    StreetAddress,
};
use cfa::str_map::StrMap;
use cfa::utils::{filter_profiles, keeps};

fn address() -> StreetAddress {
    StreetAddress {
        city: Some("Oxford".to_string()),
        countryCode: Some("US".to_string()),
        extraDescription: None,
        line1: Some("1 Main St".to_string()),
        line2: None,
        line3: None,
        postalCode: Some("38655".to_string()),
        region: Some("MS".to_string()),
        sublocality: None,
    }
}

fn site(id: &str, status: &str, subtype: &str, carryout: bool, place: Option<&str>) -> LocatorProfile {
    LocatorProfile {
        googlePlaceId: place.map(|p| p.to_string()),
        address: address(),
        yextRoutableCoordinate: Coordinates { lat: "34.5".to_string(), long: "-89.25".to_string() },
        c_conceptCode: "FSR".to_string(),
        c_status: status.to_string(),
        c_locationSubtypeCode: subtype.to_string(),
        c_carryout: carryout,
        c_fullDineIn: true,
        c_limitedDineIn: false,
        c_locationName: format!("Site {}", id),
        hours: Hours {
            normalHours: vec![DayHour {
                day: "MONDAY".to_string(),
                isClosed: false,
                intervals: vec![DayHourInterval { start: 630, end: 2200 }],
            }],
        },
        mainPhone: Some(MainPhone { display: "(662) 555-0100".to_string() }),
        meta: Meta { id: id.to_string() },
    }
}

fn table(sites: Vec<LocatorProfile>) -> CfaProfiles {
    index_profiles(sites)
}

#[test]
fn map_insert_then_get_returns_the_value() {
    let mut m: StrMap<Vec<String>> = StrMap::new();
    m.insert("a".to_string(), vec!["x".to_string()]);
    m.insert("b".to_string(), vec![]);
    m.insert("a".to_string(), vec!["y".to_string(), "z".to_string()]);
    assert_eq!(m.len(), 2);
    assert_eq!(m.get("a").unwrap(), &vec!["y".to_string(), "z".to_string()]);
    assert!(m.get("c").is_none());
    assert_eq!(m.key_at(0), "a");
    assert_eq!(m.key_at(1), "b");
    assert_eq!(m.find("b"), Some(1));
    assert!(m.contains_key("b"));
    assert!(!m.contains_key("B"));
    m.push_onto("b", "w".to_string());
    assert_eq!(m.value_at(1), &vec!["w".to_string()]);
}

#[test]
fn map_extend_prefers_the_second_map() {
    let mut a: StrMap<Vec<String>> = StrMap::new();
    a.insert("k".to_string(), vec!["old".to_string()]);
    a.insert("only_a".to_string(), vec![]);
    let mut b: StrMap<Vec<String>> = StrMap::new();
    b.insert("k".to_string(), vec!["new".to_string()]);
    b.insert("only_b".to_string(), vec![]);
    a.extend(b);
    assert_eq!(a.len(), 3);
    assert_eq!(a.get("k").unwrap(), &vec!["new".to_string()]);
    assert!(a.contains_key("only_a"));
    assert!(a.contains_key("only_b"));
}

#[test]
fn location_text_uses_the_place_identifier() {
    let t = table(vec![site("1", "OPEN", "FSU", true, Some("ChIJabc"))]);
    assert_eq!(location_str_from("1", &t), "place_id:ChIJabc");
}

#[test]
fn location_text_falls_back_to_coordinates() {
    let t = table(vec![site("2", "OPEN", "FSU", true, None)]);
    assert_eq!(location_str_from("2", &t), "34.5,-89.25");
}

#[test]
fn filter_keeps_open_free_standing_units() {
    assert!(keeps(&site("1", "OPEN", "FSU", false, None)));
    assert!(!keeps(&site("2", "CLOSED", "FSU", true, None)));
}

#[test]
fn filter_keeps_dhg_units_whatever_their_status() {
    assert!(keeps(&site("3", "CLOSED", "DHG", false, None)));
}

#[test]
fn filter_keeps_drive_through_only_units_with_carryout() {
    assert!(keeps(&site("4", "TEMPORARILY_CLOSED", "DTO", true, None)));
    assert!(!keeps(&site("5", "OPEN", "DTO", false, None)));
    assert!(!keeps(&site("6", "OPEN", "MALL", true, None)));
}

#[test]
fn filter_profiles_selects_and_keys_by_id() {
    let t = table(vec![
        site("1", "OPEN", "FSU", false, None),
        site("2", "CLOSED", "FSU", true, None),
        site("3", "CLOSED", "DHG", false, None),
        site("4", "OPEN", "DTO", false, None),
    ]);
    let kept = filter_profiles(&t);
    assert_eq!(kept.len(), 2);
    assert!(kept.contains_key("1"));
    assert!(kept.contains_key("3"));
    assert!(!kept.contains_key("2"));
    assert_eq!(kept.get("3").unwrap().c_status, "CLOSED");
}

#[test]
fn filter_twice_is_filter_once() {
    let t = table(vec![
        site("1", "OPEN", "FSU", false, None),
        site("2", "CLOSED", "FSU", true, None),
        site("3", "CLOSED", "DHG", false, None),
    ]);
    let once = filter_profiles(&t);
    let twice = filter_profiles(&once);
    assert_eq!(once.len(), twice.len());
    for i in 0..once.len() {
        let k = once.key_at(i);
        assert_eq!(twice.get(k).unwrap().meta.id, once.get(k).unwrap().meta.id);
    }
}

#[test]
fn index_keeps_the_last_site_with_an_id() {
    let t = table(vec![
        site("1", "OPEN", "FSU", false, None),
        site("1", "CLOSED", "FSU", false, None),
        site("2", "OPEN", "FSU", false, None),
    ]);
    assert_eq!(t.len(), 2);
    assert_eq!(t.get("1").unwrap().c_status, "CLOSED");
}

#[test]
fn located_sites_are_added_in_order() {
    let mut t = table(vec![site("1", "OPEN", "FSU", false, None)]);
    let data = LocatorJson {
        response: LocatorResponse {
            entities: vec![
                Entity { profile: site("2", "OPEN", "FSU", false, None) },
                Entity { profile: site("1", "CLOSED", "DHG", false, None) },
            ],
        },
    };
    add_located(&mut t, data);
    assert_eq!(t.len(), 2);
    assert_eq!(t.get("1").unwrap().c_status, "CLOSED");
    assert_eq!(t.key_at(1), "2");
}

#[test]
fn merge_locations_prefers_the_second_table() {
    let a = table(vec![site("1", "OPEN", "FSU", false, None), site("2", "OPEN", "FSU", false, None)]);
    let b = table(vec![site("2", "CLOSED", "FSU", false, None)]);
    let m = merge_locations(a, b);
    assert_eq!(m.len(), 2);
    assert_eq!(m.get("2").unwrap().c_status, "CLOSED");
    assert_eq!(m.get("1").unwrap().c_status, "OPEN");
}

#[test]
fn cloned_site_is_equal_field_by_field() {
    let s = site("9", "OPEN", "FSU", true, Some("P"));
    let c = s.clone();
    assert_eq!(c.meta.id, "9");
    assert_eq!(c.googlePlaceId.as_deref(), Some("P"));
    assert_eq!(c.hours.normalHours[0].intervals[0].end, 2200);
    assert_eq!(c.address.postalCode.as_deref(), Some("38655"));
    assert_eq!(c.mainPhone.unwrap().display, "(662) 555-0100");
}
