use poop_scoreboard::error::Error;
use poop_scoreboard::record::{Objective, PlayerScore};
use poop_scoreboard::stats::{read_nbt_blob, Stats};
use poop_scoreboard::tag::Tag;

fn text(s: &str) -> Tag {
    Tag::String(s.to_string())
}

fn compound(entries: Vec<(&str, Tag)>) -> Tag {
    Tag::Compound(entries.into_iter().map(|(k, v)| (k.to_string(), v)).collect())
}

fn objective(name: &str, criteria: &str, display: &str) -> Tag {
    compound(vec![
        ("Name", text(name)),
        ("CriteriaName", text(criteria)),
        ("display_auto_update", Tag::Byte(0)),
        ("DisplayName", text(display)),
        ("RenderType", text("integer")),
    ])
}

fn score(objective: &str, player: &str, value: Tag) -> Tag {
    compound(vec![
        ("Objective", text(objective)),
        ("Locked", Tag::Byte(0)),
        ("Name", text(player)),
        ("Score", value),
    ])
}

fn blob(objectives: Vec<Tag>, scores: Vec<Tag>) -> Tag {
    compound(vec![(
        "data",
        compound(vec![("Objectives", Tag::List(objectives)), ("PlayerScores", Tag::List(scores))]),
    )])
}

fn without(tag: &Tag, name: &str) -> Tag {
    match tag {
        Tag::Compound(entries) => Tag::Compound(
            entries.iter().filter(|e| e.0 != name).map(|e| (e.0.clone(), e.1.clone())).collect(),
        ),
        other => other.clone(),
    }
}

fn with(tag: &Tag, name: &str, value: Tag) -> Tag {
    match without(tag, name) {
        Tag::Compound(mut entries) => {
            entries.push((name.to_string(), value));
            Tag::Compound(entries)
        }
        other => other,
    }
}

fn scores_of(stats: &Stats, objective: &str) -> Vec<(String, i64)> {
    stats
        .player_scores
        .get(objective)
        .map(|list| list.iter().map(|s| (s.player_name.clone(), s.score)).collect())
        .unwrap_or_default()
}

#[test]
fn decodes_objectives_and_scores() {
    let root = blob(
        vec![objective("deaths", "minecraft.custom:deaths", "\"Deaths\"")],
        vec![score("deaths", "Alice", Tag::Int(3))],
    );
    let stats = Stats::parse_blob(&root).unwrap();
    assert_eq!(stats.objectives.len(), 1);
    assert_eq!(
        stats.objectives.get("deaths"),
        Some(&Objective {
            criteria_name: "minecraft.custom:deaths".to_string(),
            display_auto_update: 0,
            display_name: "Deaths".to_string(),
            render_type: "integer".to_string(),
        })
    );
    assert_eq!(stats.player_scores.len(), 1);
    assert_eq!(
        stats.player_scores.get("deaths"),
        Some(&vec![PlayerScore { locked: 0, player_name: "Alice".to_string(), score: 3 }])
    );
}

#[test]
fn flags_keep_their_byte_value() {
    let raw = with(
        &objective("deaths", "deathCount", "\"Deaths\""),
        "display_auto_update",
        Tag::Byte(-7),
    );
    assert_eq!(Objective::try_from(&raw).unwrap().display_auto_update, -7);
    let raw = with(&score("deaths", "Alice", Tag::Int(1)), "Locked", Tag::Byte(127));
    assert_eq!(PlayerScore::try_from(&raw).unwrap().locked, 127);
}

#[test]
fn missing_data_field() {
    let root = compound(vec![("DataVersion", Tag::Int(3700))]);
    assert_eq!(Stats::parse_blob(&root).unwrap_err(), Error::MissingNbtField("data"));
}

#[test]
fn root_of_another_kind_has_no_data_field() {
    assert_eq!(Stats::parse_blob(&Tag::Int(1)).unwrap_err(), Error::MissingNbtField("data"));
    assert_eq!(Stats::parse_blob(&Tag::List(vec![])).unwrap_err(), Error::MissingNbtField("data"));
}

#[test]
fn data_of_another_kind_is_a_type_mismatch() {
    let root = compound(vec![("data", Tag::List(vec![]))]);
    assert_eq!(
        Stats::parse_blob(&root).unwrap_err(),
        Error::WrongTypeNbtField {
            field: "data",
            expected_type: "Compound",
            real_data: Tag::List(vec![]),
        }
    );
}

#[test]
fn missing_objectives_field() {
    let root = compound(vec![("data", compound(vec![("PlayerScores", Tag::List(vec![]))]))]);
    assert_eq!(Stats::parse_blob(&root).unwrap_err(), Error::MissingNbtField("Objectives"));
}

#[test]
fn missing_player_scores_field() {
    let root = compound(vec![("data", compound(vec![("Objectives", Tag::List(vec![]))]))]);
    assert_eq!(Stats::parse_blob(&root).unwrap_err(), Error::MissingNbtField("PlayerScores"));
}

#[test]
fn objectives_of_another_kind_is_not_a_list() {
    let root = compound(vec![(
        "data",
        compound(vec![("Objectives", text("none")), ("PlayerScores", Tag::List(vec![]))]),
    )]);
    assert_eq!(Stats::parse_blob(&root).unwrap_err(), Error::NotAList("Objectives"));
}

#[test]
fn player_scores_of_another_kind_is_not_a_list() {
    let root = compound(vec![(
        "data",
        compound(vec![("Objectives", Tag::List(vec![])), ("PlayerScores", compound(vec![]))]),
    )]);
    assert_eq!(Stats::parse_blob(&root).unwrap_err(), Error::NotAList("PlayerScores"));
}

#[test]
fn empty_lists_decode_to_an_empty_snapshot() {
    let stats = Stats::parse_blob(&blob(vec![], vec![])).unwrap();
    assert_eq!(stats.objectives.len(), 0);
    assert_eq!(stats.player_scores.len(), 0);
    assert!(stats.get_player_list().is_empty());
}

#[test]
fn elements_that_are_no_compounds_are_passed_over() {
    let root = blob(
        vec![Tag::Int(1), objective("deaths", "deathCount", "\"Deaths\""), text("x")],
        vec![Tag::List(vec![]), score("deaths", "Alice", Tag::Int(3)), Tag::Long(9)],
    );
    let stats = Stats::parse_blob(&root).unwrap();
    assert_eq!(stats.objectives.len(), 1);
    assert_eq!(scores_of(&stats, "deaths"), vec![("Alice".to_string(), 3)]);
}

#[test]
fn objective_fields_are_required() {
    let full = objective("deaths", "deathCount", "\"Deaths\"");
    for field in ["CriteriaName", "display_auto_update", "DisplayName", "RenderType"] {
        assert_eq!(
            Objective::try_from(&without(&full, field)).unwrap_err(),
            Error::MissingNbtField(field)
        );
    }
    let root = blob(vec![without(&full, "Name")], vec![]);
    assert_eq!(Stats::parse_blob(&root).unwrap_err(), Error::MissingNbtField("Name"));
    let root = blob(vec![without(&full, "RenderType")], vec![]);
    assert_eq!(Stats::parse_blob(&root).unwrap_err(), Error::MissingNbtField("RenderType"));
}

#[test]
fn objective_fields_are_typed() {
    let full = objective("deaths", "deathCount", "\"Deaths\"");
    for (field, expected) in [
        ("CriteriaName", "String"),
        ("display_auto_update", "Byte"),
        ("DisplayName", "String"),
        ("RenderType", "String"),
    ] {
        assert_eq!(
            Objective::try_from(&with(&full, field, Tag::Long(1))).unwrap_err(),
            Error::WrongTypeNbtField {
                field,
                expected_type: expected,
                real_data: Tag::Long(1),
            }
        );
    }
}

#[test]
fn the_first_faulty_objective_field_is_reported() {
    let raw = compound(vec![("Name", text("deaths")), ("display_auto_update", text("no"))]);
    assert_eq!(Objective::try_from(&raw).unwrap_err(), Error::MissingNbtField("CriteriaName"));
    let raw = compound(vec![
        ("Name", text("deaths")),
        ("CriteriaName", text("deathCount")),
        ("display_auto_update", text("no")),
    ]);
    assert_eq!(
        Objective::try_from(&raw).unwrap_err(),
        Error::WrongTypeNbtField {
            field: "display_auto_update",
            expected_type: "Byte",
            real_data: text("no"),
        }
    );
}

#[test]
fn an_objective_is_read_from_a_compound_only() {
    assert_eq!(
        Objective::try_from(&Tag::Short(2)).unwrap_err(),
        Error::WrongTypeNbtField {
            field: "objective",
            expected_type: "Compound",
            real_data: Tag::Short(2),
        }
    );
}

#[test]
fn a_score_is_read_from_a_compound_only() {
    assert_eq!(
        PlayerScore::try_from(&text("x")).unwrap_err(),
        Error::WrongTypeNbtField {
            field: "PlayerScores",
            expected_type: "Compound",
            real_data: text("x"),
        }
    );
}

#[test]
fn score_fields_are_required() {
    let full = score("deaths", "Alice", Tag::Int(3));
    for field in ["Locked", "Name", "Score"] {
        assert_eq!(
            PlayerScore::try_from(&without(&full, field)).unwrap_err(),
            Error::MissingNbtField(field)
        );
    }
    let root = blob(vec![], vec![without(&full, "Objective")]);
    assert_eq!(Stats::parse_blob(&root).unwrap_err(), Error::MissingNbtField("Objective"));
}

#[test]
fn score_fields_are_typed() {
    let full = score("deaths", "Alice", Tag::Int(3));
    assert_eq!(
        PlayerScore::try_from(&with(&full, "Locked", Tag::Int(0))).unwrap_err(),
        Error::WrongTypeNbtField { field: "Locked", expected_type: "Byte", real_data: Tag::Int(0) }
    );
    assert_eq!(
        PlayerScore::try_from(&with(&full, "Name", Tag::Byte(4))).unwrap_err(),
        Error::WrongTypeNbtField { field: "Name", expected_type: "String", real_data: Tag::Byte(4) }
    );
    assert_eq!(
        PlayerScore::try_from(&with(&full, "Score", Tag::List(vec![Tag::Int(3)]))).unwrap_err(),
        Error::WrongTypeNbtField {
            field: "Score",
            expected_type: "Long, Int, Short, Byte",
            real_data: Tag::List(vec![Tag::Int(3)]),
        }
    );
}

#[test]
fn string_score_is_a_type_mismatch() {
    let root = blob(
        vec![objective("deaths", "deathCount", "\"Deaths\"")],
        vec![score("deaths", "Alice", text("3"))],
    );
    match Stats::parse_blob(&root) {
        Err(Error::WrongTypeNbtField { field, expected_type, real_data }) => {
            assert_eq!(field, "Score");
            assert_eq!(expected_type, "Long, Int, Short, Byte");
            assert_eq!(real_data, text("3"));
        }
        other => panic!("unexpected outcome: {:?}", other),
    }
}

#[test]
fn floating_point_score_is_a_type_mismatch() {
    let raw = score("deaths", "Alice", Tag::Double(3.0f64.to_bits()));
    assert_eq!(
        PlayerScore::try_from(&raw).unwrap_err(),
        Error::WrongTypeNbtField {
            field: "Score",
            expected_type: "Long, Int, Short, Byte",
            real_data: Tag::Double(3.0f64.to_bits()),
        }
    );
    let raw = score("deaths", "Alice", Tag::Float(3.0f32.to_bits()));
    assert_eq!(
        PlayerScore::try_from(&raw).unwrap_err(),
        Error::WrongTypeNbtField {
            field: "Score",
            expected_type: "Long, Int, Short, Byte",
            real_data: Tag::Float(3.0f32.to_bits()),
        }
    );
}

#[test]
fn scores_of_all_widths_decode_alike() {
    for value in [Tag::Byte(5), Tag::Short(5), Tag::Int(5), Tag::Long(5)] {
        let raw = score("deaths", "Alice", value);
        assert_eq!(PlayerScore::try_from(&raw).unwrap().score, 5);
    }
    for value in [Tag::Byte(-128), Tag::Short(-128), Tag::Int(-128), Tag::Long(-128)] {
        let raw = score("deaths", "Alice", value);
        assert_eq!(PlayerScore::try_from(&raw).unwrap().score, -128);
    }
}

#[test]
fn scores_keep_the_extremes_of_their_width() {
    let cases = [
        (Tag::Byte(i8::MIN), i8::MIN as i64),
        (Tag::Byte(i8::MAX), i8::MAX as i64),
        (Tag::Short(i16::MIN), i16::MIN as i64),
        (Tag::Short(i16::MAX), i16::MAX as i64),
        (Tag::Int(i32::MIN), i32::MIN as i64),
        (Tag::Int(i32::MAX), i32::MAX as i64),
        (Tag::Long(i64::MIN), i64::MIN),
        (Tag::Long(i64::MAX), i64::MAX),
    ];
    for (value, expected) in cases {
        let raw = score("deaths", "Alice", value);
        assert_eq!(PlayerScore::try_from(&raw).unwrap().score, expected);
    }
}

#[test]
fn display_name_loses_its_first_and_last_character() {
    let cases = [
        ("\"Deaths\"", "Deaths"),
        ("{Kills}", "Kills"),
        ("abc", "b"),
        ("ab", ""),
        ("a", ""),
        ("", ""),
        ("\u{ab}\u{e9}t\u{e9}\u{bb}", "\u{e9}t\u{e9}"),
    ];
    for (raw, expected) in cases {
        let decoded = Objective::try_from(&objective("deaths", "deathCount", raw)).unwrap();
        assert_eq!(decoded.display_name, expected);
    }
}

#[test]
fn player_names_are_not_stripped() {
    let raw = score("deaths", "\"Alice\"", Tag::Int(3));
    assert_eq!(PlayerScore::try_from(&raw).unwrap().player_name, "\"Alice\"");
}

#[test]
fn the_last_field_of_a_name_is_the_one_that_is_read() {
    let raw = compound(vec![
        ("Objective", text("deaths")),
        ("Locked", Tag::Byte(0)),
        ("Name", text("Alice")),
        ("Score", text("one")),
        ("Score", Tag::Int(2)),
    ]);
    assert_eq!(PlayerScore::try_from(&raw).unwrap().score, 2);
}

#[test]
fn scores_accumulate_in_the_order_of_the_list() {
    let root = blob(
        vec![objective("deaths", "deathCount", "\"Deaths\"")],
        vec![
            score("deaths", "Bob", Tag::Int(1)),
            score("kills", "Bob", Tag::Int(7)),
            score("deaths", "Alice", Tag::Int(2)),
            score("deaths", "Bob", Tag::Int(3)),
        ],
    );
    let stats = Stats::parse_blob(&root).unwrap();
    assert_eq!(
        scores_of(&stats, "deaths"),
        vec![("Bob".to_string(), 1), ("Alice".to_string(), 2), ("Bob".to_string(), 3)]
    );
    assert_eq!(scores_of(&stats, "kills"), vec![("Bob".to_string(), 7)]);
    assert_eq!(stats.player_scores.len(), 2);
}

#[test]
fn a_later_objective_replaces_an_earlier_one_of_the_same_name() {
    let root = blob(
        vec![
            objective("deaths", "first", "\"First\""),
            objective("deaths", "second", "\"Second\""),
        ],
        vec![],
    );
    let stats = Stats::parse_blob(&root).unwrap();
    assert_eq!(stats.objectives.len(), 1);
    assert_eq!(stats.objectives.get("deaths").unwrap().criteria_name, "second");
}

#[test]
fn a_faulty_objective_ends_the_decoding_before_the_scores_are_looked_at() {
    let faulty = without(&objective("deaths", "deathCount", "\"Deaths\""), "DisplayName");
    let root = compound(vec![("data", compound(vec![("Objectives", Tag::List(vec![faulty]))]))]);
    assert_eq!(Stats::parse_blob(&root).unwrap_err(), Error::MissingNbtField("DisplayName"));
}

#[test]
fn the_first_faulty_element_is_reported() {
    let root = blob(
        vec![objective("deaths", "deathCount", "\"Deaths\"")],
        vec![
            score("deaths", "Alice", Tag::Int(3)),
            without(&score("deaths", "Bob", Tag::Int(3)), "Locked"),
            without(&score("deaths", "Carol", Tag::Int(3)), "Score"),
        ],
    );
    assert_eq!(Stats::parse_blob(&root).unwrap_err(), Error::MissingNbtField("Locked"));
}

#[test]
fn integer_names_are_known_by_their_decimal_text() {
    let root = blob(
        vec![with(&objective("x", "deathCount", "\"Deaths\""), "Name", Tag::Int(-42))],
        vec![with(&score("x", "Alice", Tag::Int(3)), "Objective", Tag::Long(7))],
    );
    let stats = Stats::parse_blob(&root).unwrap();
    assert_eq!(stats.objectives.key(0), "-42");
    assert_eq!(scores_of(&stats, "7"), vec![("Alice".to_string(), 3)]);
}

fn key_of(name: Tag) -> String {
    let root = blob(vec![with(&objective("x", "a", "\"A\""), "Name", name)], vec![]);
    let stats = Stats::parse_blob(&root).unwrap();
    assert_eq!(stats.objectives.len(), 1);
    stats.objectives.key(0).clone()
}

#[test]
fn names_of_other_kinds_are_known_by_what_the_tag_library_writes() {
    assert_eq!(key_of(Tag::List(vec![])), "zero entries");
    assert_eq!(key_of(Tag::Double(1.5f64.to_bits())), "1.5");
    assert_eq!(key_of(Tag::Float((-0.25f32).to_bits())), "-0.25");
    assert_eq!(key_of(Tag::Double(f64::NAN.to_bits())), "NaN");
    assert_eq!(key_of(Tag::Float(f32::INFINITY.to_bits())), "inf");
    assert_eq!(key_of(Tag::ByteArray(vec![-1, 2])), "[-1, 2]");
    assert_eq!(key_of(Tag::IntArray(vec![1, 2])), "[1, 2]");
    assert_eq!(key_of(Tag::LongArray(vec![])), "[]");
    assert_eq!(
        key_of(Tag::List(vec![Tag::Int(1), Tag::Int(2)])),
        "2 entries of type TAG_Int\n{\n  TAG_Int(None): 1\n  TAG_Int(None): 2\n}"
    );
    assert_eq!(
        key_of(compound(vec![("a", Tag::Byte(1))])),
        "1 entry(ies)\n{\n  TAG_Byte(a): 1\n}"
    );
    assert_eq!(
        key_of(compound(vec![("a", Tag::Byte(1)), ("a", text("x"))])),
        "1 entry(ies)\n{\n  TAG_String(a): x\n}"
    );
    assert_eq!(key_of(compound(vec![])), "0 entry(ies)\n{\n}");
}

#[test]
fn names_of_one_text_share_a_key() {
    let root = blob(
        vec![],
        vec![
            with(&score("x", "Alice", Tag::Int(1)), "Objective", Tag::IntArray(vec![7])),
            with(&score("x", "Bob", Tag::Int(2)), "Objective", text("[7]")),
            with(&score("x", "Carol", Tag::Int(3)), "Objective", Tag::LongArray(vec![7])),
        ],
    );
    let stats = Stats::parse_blob(&root).unwrap();
    assert_eq!(stats.player_scores.len(), 1);
    assert_eq!(
        scores_of(&stats, "[7]"),
        vec![("Alice".to_string(), 1), ("Bob".to_string(), 2), ("Carol".to_string(), 3)]
    );
}

#[test]
fn the_two_mappings_can_be_decoded_on_their_own() {
    let root = blob(
        vec![objective("deaths", "deathCount", "\"Deaths\"")],
        vec![score("deaths", "Alice", Tag::Int(3))],
    );
    let (objectives, player_scores) = read_nbt_blob(&root).unwrap();
    assert_eq!(objectives.get("deaths").unwrap().display_name, "Deaths");
    assert_eq!(player_scores.get("deaths").unwrap()[0].score, 3);
    assert_eq!(
        read_nbt_blob(&compound(vec![])).unwrap_err(),
        Error::MissingNbtField("data")
    );
}

#[test]
fn tags_are_copied_in_full() {
    let tree = blob(
        vec![objective("deaths", "deathCount", "\"Deaths\"")],
        vec![
            score("deaths", "Alice", Tag::Float(0.5f32.to_bits())),
            score("deaths", "Bob", Tag::ByteArray(vec![1, -2])),
            score("deaths", "Carol", Tag::IntArray(vec![3])),
            score("deaths", "Dave", Tag::LongArray(vec![i64::MIN, 4])),
            score("deaths", "Eve", Tag::Double(f64::NAN.to_bits())),
        ],
    );
    assert_eq!(tree.clone(), tree);
}

#[test]
fn fields_are_found_by_name() {
    let node = compound(vec![("a", Tag::Int(1)), ("b", Tag::Int(2)), ("a", Tag::Int(3))]);
    assert_eq!(node.get("a"), Some(&Tag::Int(3)));
    assert_eq!(node.get("b"), Some(&Tag::Int(2)));
    assert_eq!(node.get("c"), None);
    assert_eq!(node.get(""), None);
    assert_eq!(Tag::List(vec![Tag::Int(1)]).get("a"), None);
}

#[test]
fn error_messages() {
    assert_eq!(Error::MissingNbtField("data").message(), "NBT object missing field \"data\"");
    assert_eq!(
        Error::WrongTypeNbtField {
            field: "Score",
            expected_type: "Long, Int, Short, Byte",
            real_data: text("three"),
        }
        .message(),
        "Nbt field \"Score\" is \"three\", expected type \"Long, Int, Short, Byte\""
    );
    assert_eq!(
        Error::WrongTypeNbtField { field: "Locked", expected_type: "Byte", real_data: Tag::Int(-3) }
            .message(),
        "Nbt field \"Locked\" is \"-3\", expected type \"Byte\""
    );
    assert_eq!(
        Error::WrongTypeNbtField {
            field: "Score",
            expected_type: "Long, Int, Short, Byte",
            real_data: Tag::Double(2.5f64.to_bits()),
        }
        .message(),
        "Nbt field \"Score\" is \"2.5\", expected type \"Long, Int, Short, Byte\""
    );
    assert_eq!(Error::NotAList("Objectives").message(), "Nbt field \"Objectives\" is not a list");
    assert_eq!(Error::NBTError("unexpected end".to_string()).message(), "unexpected end");
}

#[test]
fn shadowed_children_are_left_out() {
    let tree = compound(vec![
        ("a", Tag::Int(1)),
        ("b", Tag::List(vec![compound(vec![("x", Tag::Byte(1)), ("x", Tag::Byte(2))])])),
        ("a", compound(vec![("y", text("old")), ("z", Tag::Long(5)), ("y", text("new"))])),
        ("c", Tag::IntArray(vec![1])),
    ]);
    let expected = compound(vec![
        ("b", Tag::List(vec![compound(vec![("x", Tag::Byte(2))])])),
        ("a", compound(vec![("z", Tag::Long(5)), ("y", text("new"))])),
        ("c", Tag::IntArray(vec![1])),
    ]);
    let clean = tree.without_shadowed();
    assert_eq!(clean, expected);
    assert_eq!(clean.without_shadowed(), expected);
    for name in ["a", "b", "c", "d"] {
        assert_eq!(
            clean.get(name).map(Tag::without_shadowed),
            tree.get(name).map(Tag::without_shadowed)
        );
    }
}

#[test]
fn a_tag_without_repeated_names_stays_as_it_is() {
    let tree = blob(
        vec![objective("deaths", "deathCount", "\"Deaths\"")],
        vec![score("deaths", "Alice", Tag::Float(0.5f32.to_bits()))],
    );
    assert_eq!(tree.without_shadowed(), tree);
    assert_eq!(Tag::Int(3).without_shadowed(), Tag::Int(3));
    assert_eq!(Tag::List(vec![]).without_shadowed(), Tag::List(vec![]));
    assert_eq!(compound(vec![]).without_shadowed(), compound(vec![]));
}

#[test]
fn the_text_of_a_tag() {
    assert_eq!(text("deaths").text(), "deaths");
    assert_eq!(text("").text(), "");
    assert_eq!(Tag::Byte(-5).text(), "-5");
    assert_eq!(Tag::Short(300).text(), "300");
    assert_eq!(Tag::Int(0).text(), "0");
    assert_eq!(Tag::Long(i64::MIN).text(), "-9223372036854775808");
    assert_eq!(Tag::Double(0.5f64.to_bits()).text(), "0.5");
    assert_eq!(Tag::ByteArray(vec![]).text(), "[]");
    assert_eq!(
        compound(vec![("a", Tag::Byte(1)), ("a", Tag::Short(7))]).text(),
        compound(vec![("a", Tag::Short(7))]).text()
    );
    assert_eq!(
        compound(vec![("a", Tag::Byte(1)), ("a", Tag::Short(7))]).text(),
        "1 entry(ies)\n{\n  TAG_Short(a): 7\n}"
    );
}
