//! The two kinds of record that a snapshot holds, and how each is read from
//! a compound node of the tag tree.

use crate::error::{Error, ErrorView};
use crate::tag::{Node, Tag};
use crate::text::{strip_ends, stripped};
use vstd::prelude::*;

verus! {

/// A scoring category with its display metadata.
#[derive(Debug, PartialEq)]
pub struct Objective {
    pub criteria_name: String,
    pub display_auto_update: i8,
    pub display_name: String,
    pub render_type: String,
}

/// An objective as a mathematical value.
pub struct ObjectiveView {
    pub criteria_name: Seq<char>,
    pub display_auto_update: i8,
    pub display_name: Seq<char>,
    pub render_type: Seq<char>,
}

impl View for Objective {
    type V = ObjectiveView;

    open spec fn view(&self) -> ObjectiveView {
        ObjectiveView {
            criteria_name: self.criteria_name@,
            display_auto_update: self.display_auto_update,
            display_name: self.display_name@,
            render_type: self.render_type@,
        }
    }
}

/// One player's recorded value under one objective.
#[derive(Debug, PartialEq)]
pub struct PlayerScore {
    pub locked: i8,
    pub player_name: String,
    pub score: i64,
}

/// A player's score as a mathematical value.
pub struct PlayerScoreView {
    pub locked: i8,
    pub player_name: Seq<char>,
    pub score: i64,
}

impl View for PlayerScore {
    type V = PlayerScoreView;

    open spec fn view(&self) -> PlayerScoreView {
        PlayerScoreView {
            locked: self.locked,
            player_name: self.player_name@,
            score: self.score,
        }
    }
}

/// The text of the field `name` of `node`, which must be there and hold a
/// string.
pub open spec fn text_of(node: Node, name: Seq<char>) -> Result<Seq<char>, ErrorView> {
    match node.field(name) {
        None => Err(ErrorView::MissingNbtField(name)),
        Some(Node::String(s)) => Ok(s),
        Some(other) => Err(
            ErrorView::WrongTypeNbtField { field: name, expected_type: "String"@, real_data: other },
        ),
    }
}

/// The byte of the field `name` of `node`, which must be there and hold a
/// byte.
pub open spec fn byte_of(node: Node, name: Seq<char>) -> Result<i8, ErrorView> {
    match node.field(name) {
        None => Err(ErrorView::MissingNbtField(name)),
        Some(Node::Byte(v)) => Ok(v),
        Some(other) => Err(
            ErrorView::WrongTypeNbtField { field: name, expected_type: "Byte"@, real_data: other },
        ),
    }
}

/// The number that a node of one of the four integer kinds holds.
pub open spec fn integer_of(node: Node) -> Option<int> {
    match node {
        Node::Byte(v) => Some(v as int),
        Node::Short(v) => Some(v as int),
        Node::Int(v) => Some(v as int),
        Node::Long(v) => Some(v as int),
        _ => None,
    }
}

/// The number of the field `name` of `node`, which must be there and hold
/// an integer of any of the four widths.
pub open spec fn long_of(node: Node, name: Seq<char>) -> Result<i64, ErrorView> {
    match node.field(name) {
        None => Err(ErrorView::MissingNbtField(name)),
        Some(found) => match integer_of(found) {
            Some(v) => Ok(v as i64),
            None => Err(
                ErrorView::WrongTypeNbtField {
                    field: name,
                    expected_type: "Long, Int, Short, Byte"@,
                    real_data: found,
                },
            ),
        },
    }
}

/// The objective that a node stands for, or the first reason why it stands
/// for none. The fields are read in this order: criteria name, auto-update
/// flag, display name, render type.
pub open spec fn objective_of(node: Node) -> Result<ObjectiveView, ErrorView> {
    if !(node is Compound) {
        Err(
            ErrorView::WrongTypeNbtField {
                field: "objective"@,
                expected_type: "Compound"@,
                real_data: node,
            },
        )
    } else if text_of(node, "CriteriaName"@) is Err {
        Err(text_of(node, "CriteriaName"@)->Err_0)
    } else if byte_of(node, "display_auto_update"@) is Err {
        Err(byte_of(node, "display_auto_update"@)->Err_0)
    } else if text_of(node, "DisplayName"@) is Err {
        Err(text_of(node, "DisplayName"@)->Err_0)
    } else if text_of(node, "RenderType"@) is Err {
        Err(text_of(node, "RenderType"@)->Err_0)
    } else {
        Ok(
            ObjectiveView {
                criteria_name: text_of(node, "CriteriaName"@)->Ok_0,
                display_auto_update: byte_of(node, "display_auto_update"@)->Ok_0,
                display_name: stripped(text_of(node, "DisplayName"@)->Ok_0),
                render_type: text_of(node, "RenderType"@)->Ok_0,
            },
        )
    }
}

/// The player's score that a node stands for, or the first reason why it
/// stands for none. The fields are read in this order: locked flag, player
/// name, score.
pub open spec fn player_score_of(node: Node) -> Result<PlayerScoreView, ErrorView> {
    if !(node is Compound) {
        Err(
            ErrorView::WrongTypeNbtField {
                field: "PlayerScores"@,
                expected_type: "Compound"@,
                real_data: node,
            },
        )
    } else if byte_of(node, "Locked"@) is Err {
        Err(byte_of(node, "Locked"@)->Err_0)
    } else if text_of(node, "Name"@) is Err {
        Err(text_of(node, "Name"@)->Err_0)
    } else if long_of(node, "Score"@) is Err {
        Err(long_of(node, "Score"@)->Err_0)
    } else {
        Ok(
            PlayerScoreView {
                locked: byte_of(node, "Locked"@)->Ok_0,
                player_name: text_of(node, "Name"@)->Ok_0,
                score: long_of(node, "Score"@)->Ok_0,
            },
        )
    }
}

/// Whether `r` is the outcome `spec`, up to views.
pub open spec fn agrees<T: View, E: View>(r: Result<T, E>, spec: Result<T::V, E::V>) -> bool {
    match r {
        Ok(v) => spec == Ok::<T::V, E::V>(v@),
        Err(e) => spec == Err::<T::V, E::V>(e@),
    }
}

/// Reads the string that the field `name` of `tag` must hold.
pub fn text_field<'a>(tag: &'a Tag, name: &'static str) -> (r: Result<&'a String, Error>)
    ensures
        match r {
            Ok(s) => text_of(tag@, name@) == Ok::<Seq<char>, ErrorView>(s@),
            Err(e) => text_of(tag@, name@) == Err::<Seq<char>, ErrorView>(e@),
        },
{
    match tag.get(name) {
        None => Err(Error::MissingNbtField(name)),
        Some(Tag::String(s)) => Ok(s),
        Some(other) => Err(
            Error::WrongTypeNbtField {
                field: name,
                expected_type: "String",
                real_data: other.clone(),
            },
        ),
    }
}

/// Reads the byte that the field `name` of `tag` must hold.
pub fn byte_field(tag: &Tag, name: &'static str) -> (r: Result<i8, Error>)
    ensures
        match r {
            Ok(v) => byte_of(tag@, name@) == Ok::<i8, ErrorView>(v),
            Err(e) => byte_of(tag@, name@) == Err::<i8, ErrorView>(e@),
        },
{
    match tag.get(name) {
        None => Err(Error::MissingNbtField(name)),
        Some(Tag::Byte(v)) => Ok(*v),
        Some(other) => Err(
            Error::WrongTypeNbtField { field: name, expected_type: "Byte", real_data: other.clone() },
        ),
    }
}

/// Reads the integer that the field `name` of `tag` must hold, whatever its
/// width, as a 64-bit number.
pub fn long_field(tag: &Tag, name: &'static str) -> (r: Result<i64, Error>)
    ensures
        match r {
            Ok(v) => long_of(tag@, name@) == Ok::<i64, ErrorView>(v),
            Err(e) => long_of(tag@, name@) == Err::<i64, ErrorView>(e@),
        },
{
    match tag.get(name) {
        None => Err(Error::MissingNbtField(name)),
        Some(Tag::Long(v)) => Ok(*v),
        Some(Tag::Int(v)) => Ok(*v as i64),
        Some(Tag::Short(v)) => Ok(*v as i64),
        Some(Tag::Byte(v)) => Ok(*v as i64),
        Some(other) => Err(
            Error::WrongTypeNbtField {
                field: name,
                expected_type: "Long, Int, Short, Byte",
                real_data: other.clone(),
            },
        ),
    }
}

impl Objective {
    /// Reads an objective from a compound node. The display name is stored
    /// without the first and the last character of the string found.
    pub fn try_from(value: &Tag) -> (r: Result<Objective, Error>)
        ensures
            agrees(r, objective_of(value@)),
    {
        match value {
            Tag::Compound(_) => {
                let criteria_name = match text_field(value, "CriteriaName") {
                    Ok(s) => s.clone(),
                    Err(e) => {
                        return Err(e);
                    },
                };
                let display_auto_update = match byte_field(value, "display_auto_update") {
                    Ok(v) => v,
                    Err(e) => {
                        return Err(e);
                    },
                };
                let display_name = match text_field(value, "DisplayName") {
                    Ok(s) => strip_ends(s.as_str()),
                    Err(e) => {
                        return Err(e);
                    },
                };
                let render_type = match text_field(value, "RenderType") {
                    Ok(s) => s.clone(),
                    Err(e) => {
                        return Err(e);
                    },
                };
                Ok(Objective { criteria_name, display_auto_update, display_name, render_type })
            },
            other => Err(
                Error::WrongTypeNbtField {
                    field: "objective",
                    expected_type: "Compound",
                    real_data: other.clone(),
                },
            ),
        }
    }
}

impl PlayerScore {
    /// Reads a player's score from a compound node. A score of any of the
    /// four integer widths is taken, and widened to 64 bits.
    pub fn try_from(value: &Tag) -> (r: Result<PlayerScore, Error>)
        ensures
            agrees(r, player_score_of(value@)),
    {
        match value {
            Tag::Compound(_) => {
                let locked = match byte_field(value, "Locked") {
                    Ok(v) => v,
                    Err(e) => {
                        return Err(e);
                    },
                };
                let player_name = match text_field(value, "Name") {
                    Ok(s) => s.clone(),
                    Err(e) => {
                        return Err(e);
                    },
                };
                let score = match long_field(value, "Score") {
                    Ok(v) => v,
                    Err(e) => {
                        return Err(e);
                    },
                };
                Ok(PlayerScore { locked, player_name, score })
            },
            other => Err(
                Error::WrongTypeNbtField {
                    field: "PlayerScores",
                    expected_type: "Compound",
                    real_data: other.clone(),
                },
            ),
        }
    }
}

/// Integers of equal value decode to the same score, whatever the width
/// they are stored in.
pub proof fn lemma_score_widening(a: Node, b: Node, name: Seq<char>)
    requires
        a.field(name) is Some,
        b.field(name) is Some,
        integer_of(a.field(name)->0) is Some,
        integer_of(a.field(name)->0) == integer_of(b.field(name)->0),
    ensures
        long_of(a, name) == long_of(b, name),
        long_of(a, name) == Ok::<i64, ErrorView>(integer_of(a.field(name)->0)->0 as i64),
        integer_of(a.field(name)->0)->0 as i64 == integer_of(a.field(name)->0)->0,
{
}

/// The display name of a decoded objective is the string of the field
/// `DisplayName` without its first and its last character; of a string of
/// fewer than two characters nothing is left.
pub proof fn lemma_display_name_stripped(node: Node)
    requires
        objective_of(node) is Ok,
    ensures
        text_of(node, "DisplayName"@) is Ok,
        ({
            let raw = text_of(node, "DisplayName"@)->Ok_0;
            let name = objective_of(node)->Ok_0.display_name;
            &&& raw.len() >= 2 ==> name == raw.subrange(1, raw.len() - 1)
            &&& raw.len() >= 2 ==> name.len() == raw.len() - 2
            &&& raw.len() < 2 ==> name == Seq::<char>::empty()
        }),
{
}

} // verus!
