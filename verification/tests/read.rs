use std::collections::HashMap;

use nbt::{Blob, Value};
use poop_scoreboard::error::Error;
use poop_scoreboard::stats::{read_gzip_nbt, Stats};
use poop_scoreboard::tag::Tag;

fn compound(entries: Vec<(&str, Value)>) -> Value {
    let map: HashMap<String, Value> =
        entries.into_iter().map(|(k, v)| (k.to_string(), v)).collect();
    Value::Compound(map)
}

fn objective(name: &str, criteria: &str, display: &str) -> Value {
    compound(vec![
        ("Name", Value::String(name.to_string())),
        ("CriteriaName", Value::String(criteria.to_string())),
        ("display_auto_update", Value::Byte(1)),
        ("DisplayName", Value::String(display.to_string())),
        ("RenderType", Value::String("integer".to_string())),
    ])
}

fn score(objective: &str, player: &str, value: Value) -> Value {
    compound(vec![
        ("Objective", Value::String(objective.to_string())),
        ("Locked", Value::Byte(0)),
        ("Name", Value::String(player.to_string())),
        ("Score", value),
    ])
}

fn gzip(fields: Vec<(&'static str, Value)>) -> Vec<u8> {
    let mut blob = Blob::new();
    for (name, value) in fields {
        blob.insert(name, value).unwrap();
    }
    let mut bytes = Vec::new();
    blob.to_gzip_writer(&mut bytes).unwrap();
    bytes
}

fn snapshot() -> Vec<u8> {
    gzip(vec![
        ("DataVersion", Value::Int(3700)),
        (
            "data",
            compound(vec![
                (
                    "Objectives",
                    Value::List(vec![
                        objective("kills", "playerKillCount", "\"Kills\""),
                        objective("deaths", "deathCount", "\"Deaths\""),
                    ]),
                ),
                (
                    "PlayerScores",
                    Value::List(vec![
                        score("deaths", "Bob", Value::Int(70000)),
                        score("deaths", "Alice", Value::Long(3)),
                        score("kills", "Alice", Value::Short(-300)),
                    ]),
                ),
            ]),
        ),
    ])
}

#[test]
fn a_snapshot_is_read_from_compressed_bytes() {
    let stats = Stats::from_gzip_reader(&snapshot()).unwrap();
    assert_eq!(stats.objectives.len(), 2);
    assert_eq!(stats.objectives.get("deaths").unwrap().display_name, "Deaths");
    assert_eq!(stats.objectives.get("deaths").unwrap().criteria_name, "deathCount");
    assert_eq!(stats.objectives.get("kills").unwrap().display_auto_update, 1);
    assert_eq!(stats.get_player_list(), vec!["Alice", "Bob"]);
    assert_eq!(
        String::from_utf8(stats.write_csv()).unwrap(),
        "Players,Deaths,Kills\nAlice,3,-300\nBob,70000,0\n"
    );
}

#[test]
fn reading_twice_gives_the_same_export() {
    let bytes = snapshot();
    let first = Stats::from_gzip_reader(&bytes).unwrap().write_csv();
    let second = Stats::from_gzip_reader(&bytes).unwrap().write_csv();
    assert_eq!(first, second);
}

#[test]
fn the_two_mappings_are_read_from_compressed_bytes() {
    let (objectives, player_scores) = read_gzip_nbt(&snapshot()).unwrap();
    assert_eq!(objectives.key(0), "deaths");
    assert_eq!(objectives.key(1), "kills");
    let deaths = player_scores.get("deaths").unwrap();
    assert_eq!(deaths.len(), 2);
    assert_eq!(deaths[0].player_name, "Bob");
    assert_eq!(deaths[0].score, 70000);
    assert_eq!(deaths[1].player_name, "Alice");
    assert_eq!(deaths[1].score, 3);
}

fn reader_message(bytes: &[u8]) -> String {
    nbt::from_gzip_reader::<_, Blob>(bytes).unwrap_err().to_string()
}

#[test]
fn bytes_that_hold_no_tree_are_refused() {
    assert!(matches!(Stats::from_gzip_reader(b"not a scoreboard"), Err(Error::NBTError(_))));
    assert!(matches!(Stats::from_gzip_reader(&[]), Err(Error::NBTError(_))));
    assert!(matches!(read_gzip_nbt(&[0x1f, 0x8b, 0x08]), Err(Error::NBTError(_))));
    let mut cut = snapshot();
    cut.truncate(cut.len() / 2);
    assert!(matches!(Stats::from_gzip_reader(&cut), Err(Error::NBTError(_))));
}

#[test]
fn the_message_of_the_reader_is_handed_on() {
    let mut cut = snapshot();
    cut.truncate(cut.len() / 2);
    let samples: Vec<Vec<u8>> = vec![b"not a scoreboard".to_vec(), vec![], vec![0x1f, 0x8b, 0x08], cut];
    for bytes in samples {
        let message = reader_message(&bytes);
        assert!(!message.is_empty());
        assert_eq!(Stats::from_gzip_reader(&bytes).unwrap_err(), Error::NBTError(message.clone()));
        assert_eq!(read_gzip_nbt(&bytes).unwrap_err(), Error::NBTError(message.clone()));
        assert_eq!(Stats::from_gzip_reader(&bytes).unwrap_err().message(), message);
    }
}

#[test]
fn numbers_with_a_fraction_are_read_by_their_bits() {
    let bytes = gzip(vec![(
        "data",
        compound(vec![
            ("Objectives", Value::List(vec![objective("deaths", "deathCount", "\"Deaths\"")])),
            ("PlayerScores", Value::List(vec![score("deaths", "Alice", Value::Float(2.5))])),
        ]),
    )]);
    assert_eq!(
        Stats::from_gzip_reader(&bytes).unwrap_err(),
        Error::WrongTypeNbtField {
            field: "Score",
            expected_type: "Long, Int, Short, Byte",
            real_data: Tag::Float(2.5f32.to_bits()),
        }
    );
}

#[test]
fn a_tree_without_data_is_read_but_not_decoded() {
    let bytes = gzip(vec![("DataVersion", Value::Int(3700))]);
    assert_eq!(Stats::from_gzip_reader(&bytes).unwrap_err(), Error::MissingNbtField("data"));
    assert_eq!(read_gzip_nbt(&bytes).unwrap_err(), Error::MissingNbtField("data"));
}

#[test]
fn a_faulty_tree_is_read_but_not_decoded() {
    let bytes = gzip(vec![(
        "data",
        compound(vec![
            ("Objectives", Value::List(vec![objective("deaths", "deathCount", "\"Deaths\"")])),
            (
                "PlayerScores",
                Value::List(vec![score("deaths", "Alice", Value::String("3".to_string()))]),
            ),
        ]),
    )]);
    match Stats::from_gzip_reader(&bytes) {
        Err(Error::WrongTypeNbtField { field, expected_type, .. }) => {
            assert_eq!(field, "Score");
            assert_eq!(expected_type, "Long, Int, Short, Byte");
        }
        other => panic!("unexpected outcome: {:?}", other),
    }
}

#[test]
fn an_empty_list_comes_out_of_a_file_as_an_array() {
    let bytes = gzip(vec![(
        "data",
        compound(vec![("Objectives", Value::List(vec![])), ("PlayerScores", Value::List(vec![]))]),
    )]);
    assert_eq!(Stats::from_gzip_reader(&bytes).unwrap_err(), Error::NotAList("Objectives"));
}
