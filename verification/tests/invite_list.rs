use invite_customers::customer::{Customer, InviteError};
use invite_customers::customer_data::{CustomerData, ParseError};
use invite_customers::invite_list::{retain_within, sort_by_user_id, InviteList};

const DUBLIN_LATITUDE: f64 = 53.339428;
const DUBLIN_LONGITUDE: f64 = -6.257664;
const EARTH_RADIUS_KILOMETERS: f64 = 6371.0;

/// The distances that a caller of the library measures for the records of a
/// text, and one zero for each line where the text does not decode.
fn measure(text: &str) -> Vec<i64> {
    match CustomerData::list_from_json(text) {
        Ok(records) => records
            .iter()
            .map(|data| {
                let latitude = data.latitude.parse::<f64>().unwrap().to_radians();
                let longitude = data.longitude.parse::<f64>().unwrap().to_radians();
                let dublin_latitude = DUBLIN_LATITUDE.to_radians();
                let delta = (DUBLIN_LONGITUDE.to_radians() - longitude).abs();
                let cosine = dublin_latitude.sin() * latitude.sin()
                    + dublin_latitude.cos() * latitude.cos() * delta.cos();
                (EARTH_RADIUS_KILOMETERS * cosine.clamp(-1.0, 1.0).acos()).round() as i64
            })
            .collect(),
        Err(_) => text.split('\n').map(|_| 0).collect(),
    }
}

fn customer(user_id: i64, name: &str, distance: i64) -> Customer {
    Customer { user_id, name: name.to_string(), distance_from_dublin: distance }
}

fn ids(customers: &Vec<Customer>) -> Vec<i64> {
    customers.iter().map(|c| c.user_id).collect()
}

fn names(customers: &Vec<Customer>) -> Vec<String> {
    customers.iter().map(|c| c.name.clone()).collect()
}

#[test]
fn errors_out_with_invalid_data() {
    let json_data = r#" {"latitude"![e] "52.833502", "user_id": 25, "name": "David Behan", "longitude": "-8.522366"}
    {"latitude": "54.080556", "user_id": 23, "name": "Eoin Gallagher", "longitude": "-6.361944"} "#;
    let invite_list = InviteList::new().with_data(json_data).build(&measure(json_data));

    assert_eq!(invite_list.unwrap_err().message(), "Invalid JSON string");
}

#[test]
fn builds_an_invite_list() {
    let json_data = r#" {"latitude": "52.833502", "user_id": 25, "name": "David Behan", "longitude": "-8.522366"}
                          {"latitude": "54.080556", "user_id": 23, "name": "Eoin Gallagher", "longitude": "-6.361944"} "#;
    let invite_list = InviteList::new().with_data(json_data).build(&measure(json_data)).unwrap();
    assert_eq!(invite_list.len(), 2);
    assert_eq!(ids(&invite_list), vec![25, 23]);
}

#[test]
fn builds_an_invite_list_sorted_by_user_id() {
    let json_data =
    r#" {"latitude": "52.833502", "user_id": 25, "name": "David Behan", "longitude": "-8.522366"}
        {"latitude": "54.080556", "user_id": 23, "name": "Eoin Gallagher", "longitude": "-6.361944"} "#;
    let invite_list = InviteList::new()
        .with_data(json_data)
        .sorted_by_user_id()
        .build(&measure(json_data))
        .unwrap();

    assert_eq!(invite_list.len(), 2);
    assert_eq!(invite_list[0].user_id, 23);
    assert_eq!(ids(&invite_list), vec![23, 25]);
}

#[test]
fn builds_an_invite_list_within_given_kilometers() {
    let json_data =
    r#" {"latitude": "53.2451022",  "user_id": 4,   "name": "Ian Kehoe",        "longitude": "-6.238335"}
        {"latitude": "53.1302756",  "user_id": 5,   "name": "Nora Dempsey",     "longitude": "-6.2397222"}
        {"latitude": "53.1229599",  "user_id": 6,   "name": "Theresa Enright",  "longitude": "-6.2705202"}
        {"latitude": "54.374208",   "user_id": 22,  "name": "Charlie McArdle",  "longitude": "-8.371639"}
        {"latitude": "53.74452",    "user_id": 29,  "name": "Oliver Ahearn",    "longitude": "-7.11167"}
        {"latitude": "53.761389",   "user_id": 30,  "name": "Nick Enright",     "longitude": "-7.2875"}
        {"latitude": "54.080556",   "user_id": 23,  "name": "Eoin Gallagher",   "longitude": "-6.361944"} "#;
    let invite_list = InviteList::new()
        .with_data(json_data)
        .with_range(25)
        .build(&measure(json_data))
        .unwrap();

    let user_ids = ids(&invite_list);

    assert_eq!(true, user_ids.contains(&4));
    assert_eq!(true, user_ids.contains(&5));
    assert_eq!(true, user_ids.contains(&6));
    assert_eq!(false, user_ids.contains(&22));
    assert_eq!(false, user_ids.contains(&23));
    assert_eq!(false, user_ids.contains(&29));
    assert_eq!(false, user_ids.contains(&30));
    let distances: Vec<i64> = invite_list.iter().map(|c| c.distance_from_dublin).collect();
    assert_eq!(distances, vec![11, 23, 24]);
}

#[test]
fn a_customer_exactly_at_the_range_is_invited() {
    let list = vec![customer(1, "a", 24), customer(2, "b", 25), customer(3, "c", 26)];

    assert_eq!(ids(&retain_within(&list, Some(25))), vec![1, 2]);
    assert_eq!(ids(&retain_within(&list, Some(24))), vec![1]);
    assert_eq!(ids(&retain_within(&list, Some(23))), Vec::<i64>::new());
    assert_eq!(ids(&retain_within(&list, Some(-1))), Vec::<i64>::new());
    assert_eq!(ids(&retain_within(&list, Some(i64::MAX))), vec![1, 2, 3]);
}

#[test]
fn without_a_range_everyone_is_invited() {
    let list = vec![customer(1, "a", i64::MAX), customer(2, "b", 0)];
    let kept = retain_within(&list, None);

    assert_eq!(ids(&kept), vec![1, 2]);
    assert_eq!(names(&kept), vec!["a", "b"]);
    assert_eq!(kept[0].distance_from_dublin, i64::MAX);
}

#[test]
fn the_range_keeps_the_order_of_the_lines() {
    let list = vec![
        customer(9, "a", 5),
        customer(1, "b", 50),
        customer(7, "c", 5),
        customer(3, "d", 5),
    ];

    assert_eq!(ids(&retain_within(&list, Some(10))), vec![9, 7, 3]);
}

#[test]
fn sorting_is_by_ascending_user_id() {
    let list = vec![
        customer(5, "a", 1),
        customer(-3, "b", 2),
        customer(12, "c", 3),
        customer(0, "d", 4),
        customer(i64::MIN, "e", 5),
        customer(i64::MAX, "f", 6),
    ];
    let sorted = sort_by_user_id(list);

    assert_eq!(ids(&sorted), vec![i64::MIN, -3, 0, 5, 12, i64::MAX]);
    assert_eq!(names(&sorted), vec!["e", "b", "d", "a", "c", "f"]);
}

#[test]
fn sorting_keeps_the_order_of_equal_user_ids() {
    let list = vec![
        customer(2, "first", 1),
        customer(1, "second", 2),
        customer(2, "third", 3),
        customer(1, "fourth", 4),
        customer(2, "fifth", 5),
    ];
    let sorted = sort_by_user_id(list);

    assert_eq!(ids(&sorted), vec![1, 1, 2, 2, 2]);
    assert_eq!(names(&sorted), vec!["second", "fourth", "first", "third", "fifth"]);
}

#[test]
fn sorting_an_empty_list_gives_an_empty_list() {
    assert_eq!(sort_by_user_id(Vec::new()).len(), 0);
    assert_eq!(retain_within(&Vec::new(), Some(3)).len(), 0);
}

#[test]
fn one_bad_line_among_good_ones_fails_the_build() {
    let good = r#"{"latitude": "52.833502", "user_id": 25, "name": "David Behan", "longitude": "-8.522366"}"#;
    for bad in ["{", "{}", r#"{"latitude": "x", "user_id": 1, "name": "n", "longitude": "1"}"#] {
        for text in [
            format!("{}\n{}\n{}", bad, good, good),
            format!("{}\n{}\n{}", good, bad, good),
            format!("{}\n{}\n{}", good, good, bad),
        ] {
            let built = InviteList::new().with_data(&text).build(&vec![1, 2, 3]);
            assert!(matches!(built, Err(InviteError::InvalidData(_))));
            assert_eq!(built.unwrap_err().message(), "Invalid JSON string");
        }
    }
}

#[test]
fn a_builder_without_data_has_one_empty_line() {
    assert_eq!(
        InviteList::new().build(&vec![0]).unwrap_err(),
        InviteError::InvalidData(ParseError::MalformedDocument)
    );
    assert_eq!(InviteList::new().build(&vec![]).unwrap_err(), InviteError::DistanceCount);
}

#[test]
fn building_twice_gives_the_same_list() {
    let text = "{\"latitude\": \"1\", \"longitude\": \"2\", \"user_id\": 3, \"name\": \"a\"}\n{\"latitude\": \"4\", \"longitude\": \"5\", \"user_id\": 1, \"name\": \"b\"}\n{\"latitude\": \"4\", \"longitude\": \"5\", \"user_id\": 2, \"name\": \"c\"}";
    let distances = vec![10, 30, 20];
    let first = InviteList::new()
        .with_data(text)
        .with_range(20)
        .sorted_by_user_id()
        .build(&distances)
        .unwrap();
    let second = InviteList::new()
        .with_data(text)
        .with_range(20)
        .sorted_by_user_id()
        .build(&distances)
        .unwrap();

    assert_eq!(ids(&first), vec![2, 3]);
    assert_eq!(ids(&first), ids(&second));
    assert_eq!(names(&first), names(&second));
    assert_eq!(names(&first), vec!["c", "a"]);
}

#[test]
fn the_last_setting_of_the_builder_counts() {
    let text = "{\"latitude\": \"1\", \"longitude\": \"2\", \"user_id\": 3, \"name\": \"a\"}";
    let built = InviteList::new()
        .with_data("{")
        .with_range(1)
        .with_data(text)
        .with_range(7)
        .build(&vec![7])
        .unwrap();

    assert_eq!(ids(&built), vec![3]);
    assert_eq!(built[0].distance_from_dublin, 7);
}
