use poop_scoreboard::persist::Statement;
use poop_scoreboard::stats::Stats;
use poop_scoreboard::tag::Tag;

fn text(s: &str) -> Tag {
    Tag::String(s.to_string())
}

fn compound(entries: Vec<(&str, Tag)>) -> Tag {
    Tag::Compound(entries.into_iter().map(|(k, v)| (k.to_string(), v)).collect())
}

fn objective(name: &str, criteria: &str, display: &str) -> Tag {
    compound(vec![
        ("Name", text(name)),
        ("CriteriaName", text(criteria)),
        ("display_auto_update", Tag::Byte(0)),
        ("DisplayName", text(display)),
        ("RenderType", text("integer")),
    ])
}

fn score(objective: &str, player: &str, value: i32) -> Tag {
    compound(vec![
        ("Objective", text(objective)),
        ("Locked", Tag::Byte(0)),
        ("Name", text(player)),
        ("Score", Tag::Int(value)),
    ])
}

fn blob(objectives: Vec<Tag>, scores: Vec<Tag>) -> Tag {
    compound(vec![(
        "data",
        compound(vec![("Objectives", Tag::List(objectives)), ("PlayerScores", Tag::List(scores))]),
    )])
}

fn player(name: &str) -> Statement<u64> {
    Statement::InsertPlayer { player_name: name.to_string() }
}

fn known(name: &str, display: &str, criteria: &str) -> Statement<u64> {
    Statement::InsertObjective {
        objective_name: name.to_string(),
        display_name: display.to_string(),
        criteria_name: criteria.to_string(),
    }
}

fn observed(score: i64, player: &str, objective: &str, time: u64) -> Statement<u64> {
    Statement::InsertScore {
        score,
        player_name: player.to_string(),
        objective_name: objective.to_string(),
        time,
    }
}

#[test]
fn statements_come_in_three_steps() {
    let root = blob(
        vec![
            objective("kills", "playerKillCount", "\"Kills\""),
            objective("deaths", "deathCount", "\"Deaths\""),
        ],
        vec![
            score("kills", "Bob", 7),
            score("deaths", "Bob", 4),
            score("deaths", "Alice", 2),
            score("deaths", "Bob", 5),
        ],
    );
    let plan = Stats::parse_blob(&root).unwrap().write_to_sql(1700000000u64);
    assert_eq!(
        plan,
        vec![
            player("Alice"),
            player("Bob"),
            known("deaths", "Deaths", "deathCount"),
            known("kills", "Kills", "playerKillCount"),
            observed(4, "Bob", "deaths", 1700000000),
            observed(2, "Alice", "deaths", 1700000000),
            observed(5, "Bob", "deaths", 1700000000),
            observed(7, "Bob", "kills", 1700000000),
        ]
    );
}

#[test]
fn every_observation_carries_the_timestamp() {
    let root = blob(vec![], vec![score("a", "p", 1), score("b", "q", 2), score("a", "q", 3)]);
    let plan = Stats::parse_blob(&root).unwrap().write_to_sql("2024-05-01T12:00:00Z");
    let mut observations = 0;
    for statement in &plan {
        if let Statement::InsertScore { time, .. } = statement {
            assert_eq!(*time, "2024-05-01T12:00:00Z");
            observations += 1;
        }
    }
    assert_eq!(observations, 3);
    assert_eq!(plan.len(), 5);
}

#[test]
fn scores_under_an_unknown_objective_are_observed_too() {
    let root = blob(
        vec![objective("deaths", "deathCount", "\"Deaths\"")],
        vec![score("ghost", "Carol", 8)],
    );
    let plan = Stats::parse_blob(&root).unwrap().write_to_sql(5u64);
    assert_eq!(
        plan,
        vec![
            player("Carol"),
            known("deaths", "Deaths", "deathCount"),
            observed(8, "Carol", "ghost", 5),
        ]
    );
}

#[test]
fn the_plan_of_a_snapshot_is_the_same_each_time() {
    let root = blob(
        vec![objective("deaths", "deathCount", "\"Deaths\"")],
        vec![score("deaths", "Alice", 2), score("deaths", "Alice", 2)],
    );
    let stats = Stats::parse_blob(&root).unwrap();
    let first = stats.write_to_sql(1u64);
    let second = stats.write_to_sql(1u64);
    assert_eq!(first, second);
    assert_eq!(first.iter().filter(|s| matches!(s, Statement::InsertScore { .. })).count(), 2);
}

#[test]
fn an_empty_snapshot_has_no_statements() {
    let plan = Stats::parse_blob(&blob(vec![], vec![])).unwrap().write_to_sql(0u64);
    assert!(plan.is_empty());
}
