//! The tabular export: the sparse relation from objectives to scores,
//! pivoted into one row for each player and one column for each objective.

use crate::record::PlayerScoreView;
use crate::stats::{keys_settled, score_views, Objectives, PlayerScores, Stats, StatsView};
use crate::tag::Node;
use crate::tabular::{csv_bytes, encode, record_texts, uniform};
use crate::text::{
    ascending, decimal, decimal_text, insert_ordered, lemma_ascending_no_duplicates,
    lemma_ascending_unique, ordered, str_eq, texts,
};
use vstd::pervasive::unreached;
use vstd::prelude::*;
use vstd::string::*;

verus! {

/// Whether one of the first `upto` scores of `list` is `name`'s.
pub open spec fn listed(list: Seq<PlayerScoreView>, upto: int, name: Seq<char>) -> bool {
    exists|i: int| 0 <= i < upto && i < list.len() && (#[trigger] list[i]).player_name == name
}

/// Whether a score of `name` is recorded under one of the first `upto` of
/// `keys`.
pub open spec fn listed_under(
    scores: Map<Seq<char>, Seq<PlayerScoreView>>,
    keys: Seq<Seq<char>>,
    upto: int,
    name: Seq<char>,
) -> bool {
    exists|j: int|
        0 <= j < upto && j < keys.len() && listed(
            scores[#[trigger] keys[j]],
            scores[keys[j]].len() as int,
            name,
        )
}

impl StatsView {
    /// Whether a score of the player `name` is recorded, under any objective.
    pub open spec fn has_player(self, name: Seq<char>) -> bool {
        exists|k: Seq<char>| #[trigger]
            self.player_scores.contains_key(k) && listed(
                self.player_scores[k],
                self.player_scores[k].len() as int,
                name,
            )
    }

    /// The names of the players of whom a score is recorded.
    pub open spec fn player_names(self) -> Set<Seq<char>> {
        Set::new(|name: Seq<char>| self.has_player(name))
    }

    /// The players of whom a score is recorded, each once, in ascending
    /// order.
    pub open spec fn players(self) -> Seq<Seq<char>> {
        ordered(self.player_names())
    }

    /// The identifiers of the objectives, in ascending order.
    pub open spec fn titles(self) -> Seq<Seq<char>> {
        ordered(self.objectives.dom())
    }
}

/// The score of the first entry of `scores` that is `player`'s.
pub open spec fn first_score(scores: Seq<PlayerScoreView>, player: Seq<char>) -> Option<i64>
    decreases scores.len(),
{
    if scores.len() == 0 {
        None
    } else if scores[0].player_name == player {
        Some(scores[0].score)
    } else {
        first_score(scores.drop_first(), player)
    }
}

impl StatsView {
    /// The header of the table: the word `Players`, then the display name of
    /// each objective, in ascending order of the identifiers.
    pub open spec fn header(self) -> Seq<Seq<char>> {
        seq!["Players"@] + Seq::new(
            self.titles().len(),
            |i: int| self.objectives[self.titles()[i]].display_name,
        )
    }

    /// The cell of `player` in the column of the objective `title`: the
    /// first score of the player that is recorded under the objective, in
    /// decimal; `0` where none is recorded.
    pub open spec fn cell(self, player: Seq<char>, title: Seq<char>) -> Seq<char> {
        if self.player_scores.contains_key(title) {
            match first_score(self.player_scores[title], player) {
                Some(score) => decimal(score as int),
                None => "0"@,
            }
        } else {
            "0"@
        }
    }

    /// The row of `player`: the player's name, then the player's cell for
    /// each objective, in the order of the header.
    pub open spec fn row(self, player: Seq<char>) -> Seq<Seq<char>> {
        seq![player] + Seq::new(self.titles().len(), |i: int| self.cell(player, self.titles()[i]))
    }

    /// The table: the header, then one row for each player, in ascending
    /// order of the names.
    pub open spec fn records(self) -> Seq<Seq<Seq<char>>> {
        seq![self.header()] + Seq::new(
            self.players().len(),
            |i: int| self.row(self.players()[i]),
        )
    }
}

impl Stats {
    /// The players of whom a score is recorded under any objective, in
    /// strictly ascending order, so that no name stands twice, however often
    /// and in whatever order the names stand in the lists of scores.
    pub fn get_player_list(&self) -> (players: Vec<String>)
        requires
            self.wf(),
        ensures
            ascending(texts(players@)),
            texts(players@).no_duplicates(),
            texts(players@).to_set() == self@.player_names(),
            texts(players@) == self@.players(),
    {
        let ghost scores = self@.player_scores;
        let ghost keys = self.player_scores.keys();
        let mut players: Vec<String> = Vec::new();
        let n = self.player_scores.len();
        let mut a: usize = 0;
        proof {
            self.player_scores.lemma_keys();
        }
        while a < n
            invariant
                self.wf(),
                scores == self@.player_scores,
                keys == self.player_scores.keys(),
                n == keys.len(),
                a <= n,
                ascending(texts(players@)),
                forall|name: Seq<char>| #[trigger]
                    texts(players@).to_set().contains(name) <==> listed_under(
                        scores,
                        keys,
                        a as int,
                        name,
                    ),
            decreases n - a,
        {
            let list = self.player_scores.value(a);
            let ghost shown = scores[keys[a as int]];
            assert(shown == score_views(list@));
            let mut b: usize = 0;
            while b < list.len()
                invariant
                    b <= list.len(),
                    shown == score_views(list@),
                    ascending(texts(players@)),
                    forall|name: Seq<char>| #[trigger]
                        texts(players@).to_set().contains(name) <==> (listed(shown, b as int, name)
                            || listed_under(scores, keys, a as int, name)),
                decreases list.len() - b,
            {
                let ghost before = texts(players@).to_set();
                let player = list[b].player_name.clone();
                insert_ordered(&mut players, player);
                proof {
                    let added = shown[b as int].player_name;
                    assert(added == list@[b as int].player_name@);
                    assert forall|name: Seq<char>| #[trigger]
                        texts(players@).to_set().contains(name) <==> (listed(shown, b + 1, name)
                            || listed_under(scores, keys, a as int, name)) by {
                        assert(texts(players@).to_set().contains(name) <==> (before.contains(name)
                            || name == added));
                        if listed(shown, b + 1, name) {
                            let i = choose|i: int|
                                0 <= i < b + 1 && i < shown.len() && (#[trigger] shown[i]).player_name
                                    == name;
                            if i < b {
                                assert(listed(shown, b as int, name));
                            }
                        }
                        if name == added {
                            assert(shown[b as int].player_name == name);
                        }
                        if listed(shown, b as int, name) {
                            assert(listed(shown, b + 1, name));
                        }
                    }
                }
                b += 1;
            }
            proof {
                assert forall|name: Seq<char>| #[trigger]
                    texts(players@).to_set().contains(name) <==> listed_under(
                        scores,
                        keys,
                        a + 1,
                        name,
                    ) by {
                    if listed(shown, b as int, name) {
                        assert(listed(scores[keys[a as int]], scores[keys[a as int]].len() as int, name));
                    }
                    if listed_under(scores, keys, a as int, name) {
                        let j = choose|j: int|
                            0 <= j < a && j < keys.len() && listed(
                                scores[#[trigger] keys[j]],
                                scores[keys[j]].len() as int,
                                name,
                            );
                        assert(listed_under(scores, keys, a + 1, name));
                    }
                    if listed_under(scores, keys, a + 1, name) {
                        let j = choose|j: int|
                            0 <= j < a + 1 && j < keys.len() && listed(
                                scores[#[trigger] keys[j]],
                                scores[keys[j]].len() as int,
                                name,
                            );
                        if j == a {
                            assert(listed(shown, b as int, name));
                        } else {
                            assert(listed_under(scores, keys, a as int, name));
                        }
                    }
                }
            }
            a += 1;
        }
        proof {
            let found = texts(players@);
            assert forall|name: Seq<char>| found.to_set().contains(name) <==> self@.has_player(
                name,
            ) by {
                if listed_under(scores, keys, a as int, name) {
                    let j = choose|j: int|
                        0 <= j < a && j < keys.len() && listed(
                            scores[#[trigger] keys[j]],
                            scores[keys[j]].len() as int,
                            name,
                        );
                    assert(keys.to_set().contains(keys[j]));
                    assert(scores.contains_key(keys[j]));
                }
                if self@.has_player(name) {
                    let k = choose|k: Seq<char>| #[trigger]
                        scores.contains_key(k) && listed(scores[k], scores[k].len() as int, name);
                    assert(self.player_scores@.dom().contains(k));
                    assert(keys.to_set().contains(k));
                    let j = choose|j: int| 0 <= j < keys.len() && keys[j] == k;
                    assert(listed(scores[keys[j]], scores[keys[j]].len() as int, name));
                    assert(listed_under(scores, keys, a as int, name));
                }
            }
            assert(found.to_set() =~= self@.player_names());
            lemma_ascending_unique(self@.players(), found);
            lemma_ascending_no_duplicates(found);
        }
        players
    }

    /// The cell of `player` under the objective `title`.
    fn cell(&self, player: &str, title: &str) -> (r: String)
        requires
            self.wf(),
        ensures
            r@ == self@.cell(player@, title@),
    {
        proof {
            reveal_strlit("0");
        }
        match self.player_scores.get(title) {
            None => String::from_str("0"),
            Some(list) => {
                let ghost shown = score_views(list@);
                let mut i: usize = 0;
                proof {
                    assert(shown.skip(0) =~= shown);
                    assert(self@.player_scores.contains_key(title@));
                    assert(self@.player_scores[title@] == shown);
                }
                while i < list.len()
                    invariant
                        i <= list.len(),
                        shown == score_views(list@),
                        self@.player_scores.contains_key(title@),
                        self@.player_scores[title@] == shown,
                        first_score(shown, player@) == first_score(shown.skip(i as int), player@),
                    decreases list.len() - i,
                {
                    proof {
                        assert(shown.skip(i as int)[0] == shown[i as int]);
                        assert(shown.skip(i as int).drop_first() =~= shown.skip(i + 1));
                    }
                    if str_eq(list[i].player_name.as_str(), player) {
                        return decimal_text(list[i].score);
                    }
                    i += 1;
                }
                String::from_str("0")
            },
        }
    }

    /// The table of the export: a header, then one row for each player.
    pub fn csv_records(&self) -> (records: Vec<Vec<String>>)
        requires
            self.wf(),
        ensures
            record_texts(records@) == self@.records(),
            uniform(record_texts(records@)),
    {
        let ghost view = self@;
        let ghost titles = view.titles();
        proof {
            assert(view.objectives.dom() =~= self.objectives@.dom());
            self.objectives.lemma_keys();
        }
        let n = self.objectives.len();
        let players = self.get_player_list();
        let mut header: Vec<String> = Vec::new();
        header.push(String::from_str("Players"));
        let mut j: usize = 0;
        while j < n
            invariant
                self.wf(),
                view == self@,
                titles == self.objectives.keys(),
                titles == view.titles(),
                n == titles.len(),
                j <= n,
                texts(header@) == view.header().take(1 + j),
            decreases n - j,
        {
            let objective = self.objectives.value(j);
            let ghost before = texts(header@);
            header.push(objective.display_name.clone());
            proof {
                let full = view.header();
                assert(full.len() == 1 + n);
                assert(full[1 + j] == view.objectives[titles[j as int]].display_name);
                assert(texts(header@) =~= before.push(objective.display_name@));
                assert(full.take(2 + j) =~= full.take(1 + j).push(full[1 + j]));
            }
            j += 1;
        }
        proof {
            assert(view.header().take(1 + n) =~= view.header());
        }
        let mut records: Vec<Vec<String>> = Vec::new();
        records.push(header);
        let mut i: usize = 0;
        while i < players.len()
            invariant
                self.wf(),
                view == self@,
                titles == self.objectives.keys(),
                titles == view.titles(),
                n == titles.len(),
                texts(players@) == view.players(),
                i <= players.len(),
                record_texts(records@) == view.records().take(1 + i),
            decreases players.len() - i,
        {
            let player = &players[i];
            let ghost name = view.players()[i as int];
            assert(name == player@);
            let mut row: Vec<String> = Vec::new();
            row.push(player.clone());
            let mut j: usize = 0;
            while j < n
                invariant
                    self.wf(),
                    view == self@,
                    titles == self.objectives.keys(),
                    titles == view.titles(),
                    n == titles.len(),
                    j <= n,
                    name == player@,
                    texts(row@) == view.row(name).take(1 + j),
                decreases n - j,
            {
                let title = self.objectives.key(j);
                let cell = self.cell(player.as_str(), title.as_str());
                let ghost before = texts(row@);
                row.push(cell);
                proof {
                    let full = view.row(name);
                    assert(full.len() == 1 + n);
                    assert(full[1 + j] == view.cell(name, titles[j as int]));
                    assert(texts(row@) =~= before.push(cell@));
                    assert(full.take(2 + j) =~= full.take(1 + j).push(full[1 + j]));
                }
                j += 1;
            }
            proof {
                assert(view.row(name).take(1 + n) =~= view.row(name));
            }
            let ghost before = record_texts(records@);
            let ghost row_texts = texts(row@);
            records.push(row);
            proof {
                let full = view.records();
                assert(full.len() == 1 + players.len());
                assert(full[1 + i] == view.row(name));
                assert(record_texts(records@) =~= before.push(row_texts));
                assert(full.take(2 + i) =~= full.take(1 + i).push(full[1 + i]));
            }
            i += 1;
        }
        proof {
            assert(view.records().take(1 + players.len()) =~= view.records());
        }
        records
    }

    /// The tabular export as delimited text: the records of `csv_records`,
    /// one after the other.
    pub fn write_csv(&self) -> (bytes: Vec<u8>)
        requires
            self.wf(),
        ensures
            bytes@ == csv_bytes(self@.records()),
    {
        let records = self.csv_records();
        match encode(&records) {
            Ok(bytes) => bytes,
            Err(_) => unreached(),
        }
    }
}

/// The tabular export of the two mappings of a snapshot, as delimited text.
pub fn write_scores_as_csv(player_scores: PlayerScores, objectives: Objectives) -> (bytes: Vec<u8>)
    requires
        player_scores.wf(),
        objectives.wf(),
    ensures
        bytes@ == csv_bytes((Stats { objectives, player_scores })@.records()),
{
    let stats = Stats { objectives, player_scores };
    stats.write_csv()
}

/// A list of scores has a first score of `player` exactly if it lists the
/// player.
pub proof fn lemma_first_score(scores: Seq<PlayerScoreView>, player: Seq<char>)
    ensures
        first_score(scores, player) is Some <==> listed(scores, scores.len() as int, player),
    decreases scores.len(),
{
    if scores.len() > 0 {
        let rest = scores.drop_first();
        lemma_first_score(rest, player);
        if scores[0].player_name != player {
            if listed(rest, rest.len() as int, player) {
                let i = choose|i: int|
                    0 <= i < rest.len() && i < rest.len() && (#[trigger] rest[i]).player_name
                        == player;
                assert(scores[i + 1].player_name == player);
            }
            if listed(scores, scores.len() as int, player) {
                let i = choose|i: int|
                    0 <= i < scores.len() && i < scores.len() && (#[trigger] scores[i]).player_name
                        == player;
                assert(rest[i - 1].player_name == player);
            }
        }
    }
}

/// Where no score of a player is recorded under an objective, the player's
/// cell in the column of that objective is the one character `0`.
pub proof fn lemma_missing_cell(view: StatsView, player: Seq<char>, title: Seq<char>)
    requires
        !view.player_scores.contains_key(title) || !listed(
            view.player_scores[title],
            view.player_scores[title].len() as int,
            player,
        ),
    ensures
        view.cell(player, title) == seq!['0'],
{
    reveal_strlit("0");
    assert("0"@ =~= seq!['0']);
    if view.player_scores.contains_key(title) {
        lemma_first_score(view.player_scores[title], player);
    }
}

/// The tabular export is deterministic: two snapshots that were decoded
/// from one tree give the same table, and so the same bytes. This is stated
/// of every tree whose objectives and scores are named by nodes with a
/// settled text, that is of every tree but those in which a naming node is
/// or holds a compound of more than one child.
pub proof fn lemma_export_deterministic(root: Node, first: StatsView, second: StatsView)
    requires
        keys_settled(root),
        first.decodes(root),
        second.decodes(root),
    ensures
        first.records() == second.records(),
        csv_bytes(first.records()) == csv_bytes(second.records()),
{
    crate::stats::lemma_decoding_deterministic(root, first, second);
}

} // verus!
