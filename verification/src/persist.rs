//! The export to a relational store, as the ordered list of statements that
//! a caller issues one after the other.

use crate::stats::{score_views, Stats, StatsView};
use crate::record::PlayerScoreView;
use crate::text::{ordered, texts};
use vstd::prelude::*;

verus! {

/// One statement for the store. `T` is the type of the point in time that
/// the caller stamps the observations with.
#[derive(Debug, PartialEq)]
pub enum Statement<T> {
    /// Makes a player known; has no effect if the player is known already.
    InsertPlayer { player_name: String },
    /// Makes an objective known; has no effect if it is known already.
    InsertObjective { objective_name: String, display_name: String, criteria_name: String },
    /// Records one observation of a score. Issued twice, it records two.
    InsertScore { score: i64, player_name: String, objective_name: String, time: T },
}

/// A statement as a mathematical value.
pub enum StatementView<T> {
    InsertPlayer { player_name: Seq<char> },
    InsertObjective { objective_name: Seq<char>, display_name: Seq<char>, criteria_name: Seq<char> },
    InsertScore { score: i64, player_name: Seq<char>, objective_name: Seq<char>, time: T },
}

impl<T> View for Statement<T> {
    type V = StatementView<T>;

    open spec fn view(&self) -> StatementView<T> {
        match self {
            Statement::InsertPlayer { player_name } => StatementView::InsertPlayer {
                player_name: player_name@,
            },
            Statement::InsertObjective { objective_name, display_name, criteria_name } => {
                StatementView::InsertObjective {
                    objective_name: objective_name@,
                    display_name: display_name@,
                    criteria_name: criteria_name@,
                }
            },
            Statement::InsertScore { score, player_name, objective_name, time } => {
                StatementView::InsertScore {
                    score: *score,
                    player_name: player_name@,
                    objective_name: objective_name@,
                    time: *time,
                }
            },
        }
    }
}

/// The views of a list of statements.
pub open spec fn statement_views<T>(plan: Seq<Statement<T>>) -> Seq<StatementView<T>> {
    Seq::new(plan.len(), |i: int| plan[i]@)
}

/// One observation for each score of a list, in the order of the list.
pub open spec fn observations<T>(
    objective: Seq<char>,
    scores: Seq<PlayerScoreView>,
    time: T,
) -> Seq<StatementView<T>> {
    Seq::new(
        scores.len(),
        |i: int|
            StatementView::InsertScore {
                score: scores[i].score,
                player_name: scores[i].player_name,
                objective_name: objective,
                time,
            },
    )
}

impl StatsView {
    /// The identifiers under which scores are recorded, in ascending order.
    pub open spec fn scored(self) -> Seq<Seq<char>> {
        ordered(self.player_scores.dom())
    }

    /// One statement for each player, in ascending order of the names.
    pub open spec fn player_statements<T>(self) -> Seq<StatementView<T>> {
        Seq::new(
            self.players().len(),
            |i: int| StatementView::InsertPlayer { player_name: self.players()[i] },
        )
    }

    /// One statement for each objective, in ascending order of the
    /// identifiers.
    pub open spec fn objective_statements<T>(self) -> Seq<StatementView<T>> {
        Seq::new(
            self.titles().len(),
            |i: int|
                StatementView::InsertObjective {
                    objective_name: self.titles()[i],
                    display_name: self.objectives[self.titles()[i]].display_name,
                    criteria_name: self.objectives[self.titles()[i]].criteria_name,
                },
        )
    }

    /// The observations of the scores under the first `upto` identifiers, in
    /// ascending order of the identifiers, and under each in the order of
    /// its list.
    pub open spec fn score_statements<T>(self, upto: int, time: T) -> Seq<StatementView<T>>
        decreases upto,
    {
        if upto <= 0 {
            Seq::empty()
        } else {
            self.score_statements(upto - 1, time) + observations(
                self.scored()[upto - 1],
                self.player_scores[self.scored()[upto - 1]],
                time,
            )
        }
    }

    /// All statements of the export, in the order in which they must be
    /// issued: the players, then the objectives, then the observations.
    pub open spec fn statements<T>(self, time: T) -> Seq<StatementView<T>> {
        self.player_statements() + self.objective_statements() + self.score_statements(
            self.scored().len() as int,
            time,
        )
    }
}

impl Stats {
    /// The statements that persist this snapshot, in the order in which they
    /// must be issued. Every observation carries `timestamp`.
    pub fn write_to_sql<T: Copy>(&self, timestamp: T) -> (plan: Vec<Statement<T>>)
        requires
            self.wf(),
        ensures
            statement_views(plan@) == self@.statements(timestamp),
    {
        let ghost view = self@;
        let ghost first = view.player_statements::<T>();
        let ghost second = view.objective_statements::<T>();
        let mut plan: Vec<Statement<T>> = Vec::new();
        let players = self.get_player_list();
        let mut i: usize = 0;
        while i < players.len()
            invariant
                i <= players.len(),
                texts(players@) == view.players(),
                first == view.player_statements::<T>(),
                statement_views(plan@) == first.take(i as int),
            decreases players.len() - i,
        {
            let ghost before = statement_views(plan@);
            let statement = Statement::InsertPlayer { player_name: players[i].clone() };
            let ghost added = statement@;
            plan.push(statement);
            proof {
                assert(first[i as int] == added);
                assert(statement_views(plan@) =~= before.push(added));
                assert(first.take(i + 1) =~= first.take(i as int).push(first[i as int]));
            }
            i += 1;
        }
        proof {
            assert(first.take(i as int) =~= first);
            assert(view.objectives.dom() =~= self.objectives@.dom());
            self.objectives.lemma_keys();
        }
        let n = self.objectives.len();
        let mut j: usize = 0;
        while j < n
            invariant
                self.wf(),
                view == self@,
                view.titles() == self.objectives.keys(),
                n == view.titles().len(),
                j <= n,
                second == view.objective_statements::<T>(),
                statement_views(plan@) == first + second.take(j as int),
            decreases n - j,
        {
            let ghost before = statement_views(plan@);
            let objective = self.objectives.value(j);
            let statement = Statement::InsertObjective {
                objective_name: self.objectives.key(j).clone(),
                display_name: objective.display_name.clone(),
                criteria_name: objective.criteria_name.clone(),
            };
            let ghost added = statement@;
            plan.push(statement);
            proof {
                assert(second[j as int] == added);
                assert(statement_views(plan@) =~= before.push(added));
                assert(second.take(j + 1) =~= second.take(j as int).push(second[j as int]));
                assert(first + second.take(j + 1) =~= (first + second.take(j as int)).push(added));
            }
            j += 1;
        }
        proof {
            assert(second.take(j as int) =~= second);
            assert(view.player_scores.dom() =~= self.player_scores@.dom());
            self.player_scores.lemma_keys();
        }
        let m = self.player_scores.len();
        let mut a: usize = 0;
        while a < m
            invariant
                self.wf(),
                view == self@,
                view.scored() == self.player_scores.keys(),
                m == view.scored().len(),
                a <= m,
                statement_views(plan@) == first + second + view.score_statements(
                    a as int,
                    timestamp,
                ),
            decreases m - a,
        {
            let key = self.player_scores.key(a);
            let list = self.player_scores.value(a);
            let ghost shown = view.player_scores[view.scored()[a as int]];
            let ghost third = view.score_statements(a as int, timestamp);
            let ghost fourth = observations(key@, shown, timestamp);
            assert(shown == score_views(list@));
            let mut b: usize = 0;
            while b < list.len()
                invariant
                    b <= list.len(),
                    shown == score_views(list@),
                    fourth == observations(key@, shown, timestamp),
                    statement_views(plan@) == first + second + third + fourth.take(b as int),
                decreases list.len() - b,
            {
                let ghost before = statement_views(plan@);
                let statement = Statement::InsertScore {
                    score: list[b].score,
                    player_name: list[b].player_name.clone(),
                    objective_name: key.clone(),
                    time: timestamp,
                };
                let ghost added = statement@;
                plan.push(statement);
                proof {
                    assert(fourth[b as int] == added);
                    assert(statement_views(plan@) =~= before.push(added));
                    assert(fourth.take(b + 1) =~= fourth.take(b as int).push(fourth[b as int]));
                    assert(first + second + third + fourth.take(b + 1) =~= (first + second + third
                        + fourth.take(b as int)).push(added));
                }
                b += 1;
            }
            proof {
                assert(fourth.take(b as int) =~= fourth);
                assert(view.score_statements(a + 1, timestamp) == third + fourth);
                assert(first + second + third + fourth =~= first + second + (third + fourth));
            }
            a += 1;
        }
        plan
    }
}

} // verus!
