use imessage_undeleter::handle::{cache, dedupe, dedupe_chats, get_person_id_map, PersonMapping};
use imessage_undeleter::handle::Handle;

fn lookup(map: &[(i32, String)], key: i32) -> Option<&str> {
    map.iter().find(|(k, _)| *k == key).map(|(_, v)| v.as_str())
}

#[test]
fn test_can_dedupe() {
    let input: Vec<(i32, String)> = vec![
        (1, String::from("A")),
        (2, String::from("A")),
        (3, String::from("A")),
        (4, String::from("B")),
        (5, String::from("B")),
        (6, String::from("C")),
    ];

    let output = dedupe(&input);
    let expected_deduped_ids: std::collections::HashSet<i32> =
        output.iter().map(|(_, v)| *v).collect();
    assert_eq!(expected_deduped_ids.len(), 3);
}

#[test]
// Simulate 3 runs of the program and ensure that the order of the
// deduplicated contacts is stable
fn test_same_values() {
    let entries = |order: &[i32]| -> Vec<(i32, String)> {
        order
            .iter()
            .map(|&k| {
                let v = match k {
                    1 | 2 | 3 => "A",
                    4 | 5 => "B",
                    _ => "C",
                };
                (k, String::from(v))
            })
            .collect()
    };
    let input_1 = entries(&[1, 2, 3, 4, 5, 6]);
    let input_2 = entries(&[6, 5, 4, 3, 2, 1]);
    let input_3 = entries(&[3, 6, 1, 5, 2, 4]);

    let mut output_1 = dedupe(&input_1);
    let mut output_2 = dedupe(&input_2);
    let mut output_3 = dedupe(&input_3);

    output_1.sort_unstable();
    output_2.sort_unstable();
    output_3.sort_unstable();

    assert_eq!(output_1, output_2);
    assert_eq!(output_1, output_3);
    assert_eq!(output_2, output_3);
}

#[test]
fn dedupe_assigns_dense_ids_by_rowid() {
    let input: Vec<(i32, String)> = vec![
        (3, String::from("bob@y")),
        (1, String::from("+15550001 alice@x")),
        (2, String::from("+15550001 alice@x")),
    ];
    let output = dedupe(&input);
    assert_eq!(output, vec![(1, 0), (2, 0), (3, 1)]);
}

#[test]
fn person_id_map_joins_sorted_identifiers() {
    let rows = vec![
        PersonMapping {
            person_centric_id: String::from("p"),
            rowid: 1,
            id: String::from("+15550001"),
        },
        PersonMapping {
            person_centric_id: String::from("p"),
            rowid: 2,
            id: String::from("alice@x"),
        },
    ];
    let map = get_person_id_map(&rows);
    assert_eq!(lookup(&map, 1), Some("+15550001 alice@x"));
    assert_eq!(lookup(&map, 2), Some("+15550001 alice@x"));
}

#[test]
fn cache_seeds_me_and_applies_person_map() {
    let handles = vec![
        Handle { rowid: 1, id: String::from("+15550001"), person_centric_id: Some(String::from("p")) },
        Handle { rowid: 2, id: String::from("alice@x"), person_centric_id: Some(String::from("p")) },
        Handle { rowid: 3, id: String::from("bob@y"), person_centric_id: None },
    ];
    let person_rows = vec![
        PersonMapping {
            person_centric_id: String::from("p"),
            rowid: 1,
            id: String::from("+15550001"),
        },
        PersonMapping {
            person_centric_id: String::from("p"),
            rowid: 2,
            id: String::from("alice@x"),
        },
    ];
    let person_map = get_person_id_map(&person_rows);
    let map = cache(&handles, &person_map);

    assert_eq!(lookup(&map, 0), Some("Me"));
    assert_eq!(lookup(&map, 1), Some("+15550001 alice@x"));
    assert_eq!(lookup(&map, 2), Some("+15550001 alice@x"));
    assert_eq!(lookup(&map, 3), Some("bob@y"));

    // Dedupe stability: the dense identifiers come out the same on every
    // run over this cache.
    let no_me: Vec<(i32, String)> =
        map.iter().filter(|(k, _)| *k != 0).cloned().collect();
    let output = dedupe(&no_me);
    let again = dedupe(&no_me);
    assert_eq!(output, again);
    let mut sorted = output.clone();
    sorted.sort_unstable();
    assert_eq!(sorted, vec![(1, 0), (2, 0), (3, 1)]);
}

#[test]
fn chats_with_equal_member_sets_collapse() {
    let input: Vec<(i32, Vec<i32>)> = vec![
        (1, vec![1, 2]),
        (2, vec![1, 2]),
        (3, vec![3]),
    ];
    let mut output = dedupe_chats(&input);
    output.sort_unstable();
    assert_eq!(output, vec![(1, 0), (2, 0), (3, 1)]);
}
