//! The snapshot of a scoreboard: its objectives and the scores recorded
//! under them, decoded from a tag tree.

use crate::error::{Error, ErrorView};
use crate::keyed::Keyed;
use crate::record::{
    objective_of, player_score_of, Objective, ObjectiveView, PlayerScore, PlayerScoreView,
};
use crate::tag::{
    gzip_error, gzip_tree, lemma_nodes, node_text, nodes, read_gzip, settled, Node, Tag,
};
use vstd::prelude::*;

verus! {

/// The objectives of a snapshot, by their identifiers.
pub type Objectives = Keyed<Objective>;

/// The scores of a snapshot, in the order in which they were decoded, by the
/// identifier of the objective that they belong to.
pub type PlayerScores = Keyed<Vec<PlayerScore>>;

/// A decoded snapshot.
#[derive(Debug)]
pub struct Stats {
    pub objectives: Objectives,
    pub player_scores: PlayerScores,
}

/// A snapshot as a mathematical value.
pub struct StatsView {
    pub objectives: Map<Seq<char>, ObjectiveView>,
    pub player_scores: Map<Seq<char>, Seq<PlayerScoreView>>,
}

/// The views of a list of scores.
pub open spec fn score_views(scores: Seq<PlayerScore>) -> Seq<PlayerScoreView> {
    Seq::new(scores.len(), |i: int| scores[i]@)
}

/// The objectives of a mapping, as mathematical values.
pub open spec fn objectives_view(m: Map<Seq<char>, Objective>) -> Map<Seq<char>, ObjectiveView> {
    Map::new(|k: Seq<char>| m.contains_key(k), |k: Seq<char>| m[k]@)
}

/// The score lists of a mapping, as mathematical values.
pub open spec fn scores_view(m: Map<Seq<char>, Vec<PlayerScore>>) -> Map<
    Seq<char>,
    Seq<PlayerScoreView>,
> {
    Map::new(|k: Seq<char>| m.contains_key(k), |k: Seq<char>| score_views(m[k]@))
}

impl View for Stats {
    type V = StatsView;

    open spec fn view(&self) -> StatsView {
        StatsView {
            objectives: objectives_view(self.objectives@),
            player_scores: scores_view(self.player_scores@),
        }
    }
}

/// What one element of the list of objectives gives: nothing, if it is no
/// compound node; else the node that names the objective, and the objective;
/// or the first reason why the element cannot be read.
pub open spec fn named_objective(elem: Node) -> Result<Option<(Node, ObjectiveView)>, ErrorView> {
    if !(elem is Compound) {
        Ok(None)
    } else if elem.field("Name"@) is None {
        Err(ErrorView::MissingNbtField("Name"@))
    } else if objective_of(elem) is Err {
        Err(objective_of(elem)->Err_0)
    } else {
        Ok(Some((elem.field("Name"@)->0, objective_of(elem)->Ok_0)))
    }
}

/// What one element of the list of scores gives: nothing, if it is no
/// compound node; else the node that names the objective that the score
/// belongs to, and the score; or the first reason why the element cannot be
/// read.
pub open spec fn named_score(elem: Node) -> Result<Option<(Node, PlayerScoreView)>, ErrorView> {
    if !(elem is Compound) {
        Ok(None)
    } else if elem.field("Objective"@) is None {
        Err(ErrorView::MissingNbtField("Objective"@))
    } else if player_score_of(elem) is Err {
        Err(player_score_of(elem)->Err_0)
    } else {
        Ok(Some((elem.field("Objective"@)->0, player_score_of(elem)->Ok_0)))
    }
}

/// What the elements of a list give, in the order of the list, or the reason
/// why the first element that cannot be read cannot.
pub open spec fn collected<T>(
    list: Seq<Node>,
    read: spec_fn(Node) -> Result<Option<(Node, T)>, ErrorView>,
) -> Result<Seq<(Node, T)>, ErrorView>
    decreases list.len(),
{
    if list.len() == 0 {
        Ok(Seq::empty())
    } else {
        match read(list[0]) {
            Err(e) => Err(e),
            Ok(first) => match collected(list.drop_first(), read) {
                Err(e) => Err(e),
                Ok(rest) => Ok(
                    match first {
                        Some(item) => seq![item] + rest,
                        None => rest,
                    },
                ),
            },
        }
    }
}

/// The list that the field `name` of `data` must hold.
pub open spec fn list_of(data: Node, name: Seq<char>) -> Result<Seq<Node>, ErrorView> {
    match data.field(name) {
        None => Err(ErrorView::MissingNbtField(name)),
        Some(Node::List(items)) => Ok(items),
        Some(_) => Err(ErrorView::NotAList(name)),
    }
}

/// The compound node that the field `data` of the root must hold.
pub open spec fn data_of(root: Node) -> Result<Node, ErrorView> {
    match root.field("data"@) {
        None => Err(ErrorView::MissingNbtField("data"@)),
        Some(data) => if data is Compound {
            Ok(data)
        } else {
            Err(
                ErrorView::WrongTypeNbtField {
                    field: "data"@,
                    expected_type: "Compound"@,
                    real_data: data,
                },
            )
        },
    }
}

/// The objectives that a tree holds, each with the node that names it, in
/// the order of the tree; or the first reason why the tree cannot be decoded
/// as far as its objectives.
pub open spec fn decoded_objectives(root: Node) -> Result<Seq<(Node, ObjectiveView)>, ErrorView> {
    match data_of(root) {
        Err(e) => Err(e),
        Ok(data) => match list_of(data, "Objectives"@) {
            Err(e) => Err(e),
            Ok(list) => collected(list, |elem: Node| named_objective(elem)),
        },
    }
}

/// The scores that a tree holds, each with the node that names its
/// objective, in the order of the tree; or the first reason why the tree
/// cannot be decoded. The objectives are decoded first, so their failure
/// comes first.
pub open spec fn decoded_scores(root: Node) -> Result<Seq<(Node, PlayerScoreView)>, ErrorView> {
    match decoded_objectives(root) {
        Err(e) => Err(e),
        Ok(_) => match list_of(data_of(root)->Ok_0, "PlayerScores"@) {
            Err(e) => Err(e),
            Ok(list) => collected(list, |elem: Node| named_score(elem)),
        },
    }
}

/// The reason why a tree cannot be decoded, if there is one.
pub open spec fn decode_error(root: Node) -> Option<ErrorView> {
    match decoded_scores(root) {
        Err(e) => Some(e),
        Ok(_) => None,
    }
}

/// Whether `keys` can be the texts of the nodes that name `items`: there is
/// one key for each item, and where the text of the naming node is settled
/// the key is that text.
pub open spec fn keys_fit<T>(keys: Seq<Seq<char>>, items: Seq<(Node, T)>) -> bool {
    &&& keys.len() == items.len()
    &&& forall|i: int|
        0 <= i < items.len() && settled((#[trigger] items[i]).0) ==> keys[i] == node_text(
            items[i].0,
        )
}

/// The mapping that results when each objective is put under its key, in
/// order: of two objectives under one key the later one stays.
pub open spec fn objectives_from(
    keys: Seq<Seq<char>>,
    items: Seq<(Node, ObjectiveView)>,
) -> Map<Seq<char>, ObjectiveView>
    decreases items.len(),
{
    if items.len() == 0 || keys.len() == 0 {
        Map::empty()
    } else {
        objectives_from(keys.drop_last(), items.drop_last()).insert(keys.last(), items.last().1)
    }
}

/// The mapping that results when each score is added to the list under its
/// key, in order.
pub open spec fn scores_from(keys: Seq<Seq<char>>, items: Seq<(Node, PlayerScoreView)>) -> Map<
    Seq<char>,
    Seq<PlayerScoreView>,
>
    decreases items.len(),
{
    if items.len() == 0 || keys.len() == 0 {
        Map::empty()
    } else {
        let before = scores_from(keys.drop_last(), items.drop_last());
        let list = if before.contains_key(keys.last()) {
            before[keys.last()]
        } else {
            Seq::empty()
        };
        before.insert(keys.last(), list.push(items.last().1))
    }
}

impl StatsView {
    /// Whether this snapshot is what `root` decodes to.
    pub open spec fn decodes(self, root: Node) -> bool {
        &&& decoded_objectives(root) is Ok
        &&& decoded_scores(root) is Ok
        &&& exists|objective_keys: Seq<Seq<char>>, score_keys: Seq<Seq<char>>|
            {
                &&& #[trigger] keys_fit(objective_keys, decoded_objectives(root)->Ok_0)
                &&& #[trigger] keys_fit(score_keys, decoded_scores(root)->Ok_0)
                &&& self.objectives == objectives_from(
                    objective_keys,
                    decoded_objectives(root)->Ok_0,
                )
                &&& self.player_scores == scores_from(score_keys, decoded_scores(root)->Ok_0)
            }
    }
}

/// Whether every item is named by a node whose text is settled: by any node
/// that neither is nor holds a compound of more than one child.
pub open spec fn names_settled<T>(items: Seq<(Node, T)>) -> bool {
    forall|i: int| 0 <= i < items.len() ==> settled((#[trigger] items[i]).0)
}

/// The keys of items whose names are settled: the texts of the naming nodes.
pub open spec fn settled_keys<T>(items: Seq<(Node, T)>) -> Seq<Seq<char>> {
    Seq::new(items.len(), |i: int| node_text(items[i].0))
}

/// Whether a tree can be decoded, and names each of its objectives and
/// scores by a node whose text is settled.
pub open spec fn keys_settled(root: Node) -> bool {
    &&& decode_error(root) is None
    &&& names_settled(decoded_objectives(root)->Ok_0)
    &&& names_settled(decoded_scores(root)->Ok_0)
}

/// The snapshot that a tree whose keys are settled decodes to.
pub open spec fn snapshot_of(root: Node) -> StatsView {
    StatsView {
        objectives: objectives_from(
            settled_keys(decoded_objectives(root)->Ok_0),
            decoded_objectives(root)->Ok_0,
        ),
        player_scores: scores_from(
            settled_keys(decoded_scores(root)->Ok_0),
            decoded_scores(root)->Ok_0,
        ),
    }
}

/// Items whose names are settled have one sequence of keys only.
pub proof fn lemma_keys_determined<T>(keys: Seq<Seq<char>>, items: Seq<(Node, T)>)
    requires
        keys_fit(keys, items),
        names_settled(items),
    ensures
        keys == settled_keys(items),
{
    assert(keys =~= settled_keys(items));
}

/// Decoding is deterministic: whatever a tree whose keys are settled decodes
/// to is the one snapshot of that tree, so two decodings of one tree agree.
pub proof fn lemma_decoding_deterministic(root: Node, first: StatsView, second: StatsView)
    requires
        keys_settled(root),
        first.decodes(root),
        second.decodes(root),
    ensures
        first == snapshot_of(root),
        first == second,
{
    lemma_decoded(root, first);
    lemma_decoded(root, second);
}

/// What a tree whose keys are settled decodes to is its snapshot.
pub proof fn lemma_decoded(root: Node, view: StatsView)
    requires
        keys_settled(root),
        view.decodes(root),
    ensures
        view == snapshot_of(root),
{
    let objectives = decoded_objectives(root)->Ok_0;
    let scores = decoded_scores(root)->Ok_0;
    let (objective_keys, score_keys) = choose|
        objective_keys: Seq<Seq<char>>,
        score_keys: Seq<Seq<char>>,
    |
        {
            &&& #[trigger] keys_fit(objective_keys, objectives)
            &&& #[trigger] keys_fit(score_keys, scores)
            &&& view.objectives == objectives_from(objective_keys, objectives)
            &&& view.player_scores == scores_from(score_keys, scores)
        };
    lemma_keys_determined(objective_keys, objectives);
    lemma_keys_determined(score_keys, scores);
}

/// Whether `r` is the outcome of decoding `root`: the reason why the tree
/// cannot be decoded, if there is one; else a snapshot that the tree decodes
/// to, which for a tree whose keys are settled is its snapshot.
pub open spec fn decoding(r: Result<Stats, Error>, root: Node) -> bool {
    match r {
        Ok(stats) => {
            &&& decode_error(root) is None
            &&& stats.wf()
            &&& stats@.decodes(root)
            &&& keys_settled(root) ==> stats@ == snapshot_of(root)
        },
        Err(e) => decode_error(root) == Some(e@),
    }
}

/// Reads the objectives of a list into a mapping.
fn read_objectives(items: &Vec<Tag>) -> (r: Result<(Objectives, Ghost<Seq<Seq<char>>>), Error>)
    ensures
        match r {
            Ok((objectives, keys)) => {
                let found = collected(nodes(items@), |elem: Node| named_objective(elem));
                &&& found is Ok
                &&& objectives.wf()
                &&& keys_fit(keys@, found->Ok_0)
                &&& objectives_view(objectives@) == objectives_from(keys@, found->Ok_0)
            },
            Err(e) => collected(nodes(items@), |elem: Node| named_objective(elem)) == Err::<
                Seq<(Node, ObjectiveView)>,
                ErrorView,
            >(e@),
        },
{
    let ghost all = nodes(items@);
    let ghost read = |elem: Node| named_objective(elem);
    let mut objectives: Objectives = Keyed::new();
    let ghost mut keys: Seq<Seq<char>> = Seq::empty();
    let ghost mut done: Seq<(Node, ObjectiveView)> = Seq::empty();
    let mut i: usize = 0;
    proof {
        lemma_nodes(items@);
        assert(all.skip(0) =~= all);
        assert(objectives_view(objectives@) =~= objectives_from(keys, done));
    }
    while i < items.len()
        invariant
            i <= items.len(),
            all == nodes(items@),
            all.len() == items@.len(),
            read == (|elem: Node| named_objective(elem)),
            objectives.wf(),
            keys_fit(keys, done),
            objectives_view(objectives@) == objectives_from(keys, done),
            match collected(all.skip(i as int), read) {
                Ok(rest) => collected(all, read) == Ok::<Seq<(Node, ObjectiveView)>, ErrorView>(
                    done + rest,
                ),
                Err(e) => collected(all, read) == Err::<Seq<(Node, ObjectiveView)>, ErrorView>(e),
            },
        decreases items.len() - i,
    {
        let item = &items[i];
        proof {
            lemma_nodes(items@);
            assert(all.skip(i as int)[0] == item@);
            assert(all.skip(i as int).drop_first() =~= all.skip(i + 1));
        }
        match item {
            Tag::Compound(_) => {
                let name = match item.get("Name") {
                    Some(name) => name,
                    None => {
                        return Err(Error::MissingNbtField("Name"));
                    },
                };
                let key = name.text();
                let objective = match Objective::try_from(item) {
                    Ok(objective) => objective,
                    Err(e) => {
                        return Err(e);
                    },
                };
                proof {
                    let ghost entry = (name@, objective@);
                    let ghost rest = collected(all.skip(i + 1), read);
                    if rest is Ok {
                        assert(done + (seq![entry] + rest->Ok_0) =~= done.push(entry) + rest->Ok_0);
                    }
                    assert(keys.push(key@).drop_last() =~= keys);
                    assert(done.push(entry).drop_last() =~= done);
                    assert(objectives_view(objectives@.insert(key@, objective))
                        =~= objectives_view(objectives@).insert(key@, objective@));
                    keys = keys.push(key@);
                    done = done.push(entry);
                }
                objectives.insert(key, objective);
            },
            _ => {},
        }
        i += 1;
    }
    proof {
        assert(done + Seq::<(Node, ObjectiveView)>::empty() =~= done);
    }
    Ok((objectives, Ghost(keys)))
}

/// Reads the scores of a list into a mapping.
fn read_scores(items: &Vec<Tag>) -> (r: Result<(PlayerScores, Ghost<Seq<Seq<char>>>), Error>)
    ensures
        match r {
            Ok((scores, keys)) => {
                let found = collected(nodes(items@), |elem: Node| named_score(elem));
                &&& found is Ok
                &&& scores.wf()
                &&& keys_fit(keys@, found->Ok_0)
                &&& scores_view(scores@) == scores_from(keys@, found->Ok_0)
            },
            Err(e) => collected(nodes(items@), |elem: Node| named_score(elem)) == Err::<
                Seq<(Node, PlayerScoreView)>,
                ErrorView,
            >(e@),
        },
{
    let ghost all = nodes(items@);
    let ghost read = |elem: Node| named_score(elem);
    let mut scores: PlayerScores = Keyed::new();
    let ghost mut keys: Seq<Seq<char>> = Seq::empty();
    let ghost mut done: Seq<(Node, PlayerScoreView)> = Seq::empty();
    let mut i: usize = 0;
    proof {
        lemma_nodes(items@);
        assert(all.skip(0) =~= all);
        assert(scores_view(scores@) =~= scores_from(keys, done));
    }
    while i < items.len()
        invariant
            i <= items.len(),
            all == nodes(items@),
            all.len() == items@.len(),
            read == (|elem: Node| named_score(elem)),
            scores.wf(),
            keys_fit(keys, done),
            scores_view(scores@) == scores_from(keys, done),
            match collected(all.skip(i as int), read) {
                Ok(rest) => collected(all, read) == Ok::<Seq<(Node, PlayerScoreView)>, ErrorView>(
                    done + rest,
                ),
                Err(e) => collected(all, read) == Err::<Seq<(Node, PlayerScoreView)>, ErrorView>(e),
            },
        decreases items.len() - i,
    {
        let item = &items[i];
        proof {
            lemma_nodes(items@);
            assert(all.skip(i as int)[0] == item@);
            assert(all.skip(i as int).drop_first() =~= all.skip(i + 1));
        }
        match item {
            Tag::Compound(_) => {
                let name = match item.get("Objective") {
                    Some(name) => name,
                    None => {
                        return Err(Error::MissingNbtField("Objective"));
                    },
                };
                let key = name.text();
                let score = match PlayerScore::try_from(item) {
                    Ok(score) => score,
                    Err(e) => {
                        return Err(e);
                    },
                };
                let ghost before = scores@;
                let ghost entry = (name@, score@);
                proof {
                    let ghost rest = collected(all.skip(i + 1), read);
                    if rest is Ok {
                        assert(done + (seq![entry] + rest->Ok_0) =~= done.push(entry) + rest->Ok_0);
                    }
                    assert(keys.push(key@).drop_last() =~= keys);
                    assert(done.push(entry).drop_last() =~= done);
                }
                scores.push(key, score);
                proof {
                    let list = if before.contains_key(key@) {
                        before[key@]@
                    } else {
                        Seq::empty()
                    };
                    assert(score_views(list.push(score)) =~= score_views(list).push(score@));
                    let m = scores_from(keys, done);
                    let old_list = if m.contains_key(key@) {
                        m[key@]
                    } else {
                        Seq::empty()
                    };
                    assert(old_list =~= score_views(list));
                    let target = m.insert(key@, old_list.push(score@));
                    assert(scores_from(keys.push(key@), done.push(entry)) == target);
                    assert(scores@.dom().contains(key@));
                    assert forall|k: Seq<char>| #[trigger]
                        target.contains_key(k) implies scores_view(scores@).contains_key(k)
                        && scores_view(scores@)[k] == target[k] by {
                        if k != key@ {
                            assert(before.contains_key(k));
                            assert(scores@.dom().contains(k));
                        }
                    }
                    assert forall|k: Seq<char>| #[trigger]
                        scores_view(scores@).contains_key(k) implies target.contains_key(k) by {
                        assert(scores@.dom().contains(k));
                    }
                    assert(scores_view(scores@) =~= target);
                    keys = keys.push(key@);
                    done = done.push(entry);
                }
            },
            _ => {},
        }
        i += 1;
    }
    proof {
        assert(done + Seq::<(Node, PlayerScoreView)>::empty() =~= done);
    }
    Ok((scores, Ghost(keys)))
}

impl Stats {
    /// The invariant of the type: that of its two mappings.
    pub open spec fn wf(&self) -> bool {
        self.objectives.wf() && self.player_scores.wf()
    }

    /// Decodes a snapshot from the root of a tag tree. The root must have a
    /// compound field `data`, which must have the list fields `Objectives`
    /// and `PlayerScores`. Elements of the two lists that are no compound
    /// nodes are passed over. The first field that is missing or holds the
    /// wrong kind of node ends the decoding, and nothing is returned but the
    /// reason.
    pub fn parse_blob(blob: &Tag) -> (r: Result<Stats, Error>)
        ensures
            decoding(r, blob@),
    {
        let data = match blob.get("data") {
            Some(data) => data,
            None => {
                return Err(Error::MissingNbtField("data"));
            },
        };
        match data {
            Tag::Compound(_) => {},
            other => {
                return Err(
                    Error::WrongTypeNbtField {
                        field: "data",
                        expected_type: "Compound",
                        real_data: other.clone(),
                    },
                );
            },
        }
        let (objectives, objective_keys) = match data.get("Objectives") {
            None => {
                return Err(Error::MissingNbtField("Objectives"));
            },
            Some(Tag::List(items)) => match read_objectives(items) {
                Ok(read) => read,
                Err(e) => {
                    return Err(e);
                },
            },
            Some(_) => {
                return Err(Error::NotAList("Objectives"));
            },
        };
        let (player_scores, score_keys) = match data.get("PlayerScores") {
            None => {
                return Err(Error::MissingNbtField("PlayerScores"));
            },
            Some(Tag::List(items)) => match read_scores(items) {
                Ok(read) => read,
                Err(e) => {
                    return Err(e);
                },
            },
            Some(_) => {
                return Err(Error::NotAList("PlayerScores"));
            },
        };
        let stats = Stats { objectives, player_scores };
        proof {
            assert(keys_fit(objective_keys@, decoded_objectives(blob@)->Ok_0));
            assert(keys_fit(score_keys@, decoded_scores(blob@)->Ok_0));
            if keys_settled(blob@) {
                lemma_decoded(blob@, stats@);
            }
        }
        Ok(stats)
    }

    /// Reads a snapshot from the bytes of a gzip-compressed file: the tree in
    /// the bytes is read, and decoded as `parse_blob` decodes it. Where the
    /// bytes hold no tree, the reader's message is handed on as it is.
    pub fn from_gzip_reader(src: &[u8]) -> (r: Result<Stats, Error>)
        ensures
            match gzip_tree(src@) {
                Some(root) => decoding(r, root),
                None => r is Err && r->Err_0@ == ErrorView::NBTError(gzip_error(src@)),
            },
    {
        match read_gzip(src) {
            Ok(root) => Stats::parse_blob(&root),
            Err(message) => Err(Error::NBTError(message)),
        }
    }
}

/// The two mappings of a snapshot, for the snapshot.
pub open spec fn paired(r: Result<(Objectives, PlayerScores), Error>) -> Result<Stats, Error> {
    match r {
        Ok((objectives, player_scores)) => Ok(Stats { objectives, player_scores }),
        Err(e) => Err(e),
    }
}

/// Decodes the two mappings of a snapshot from the root of a tag tree, as
/// `Stats::parse_blob` does.
pub fn read_nbt_blob(blob: &Tag) -> (r: Result<(Objectives, PlayerScores), Error>)
    ensures
        decoding(paired(r), blob@),
{
    match Stats::parse_blob(blob) {
        Ok(stats) => Ok((stats.objectives, stats.player_scores)),
        Err(e) => Err(e),
    }
}

/// Reads the two mappings of a snapshot from the bytes of a gzip-compressed
/// file, as `Stats::from_gzip_reader` does.
pub fn read_gzip_nbt(src: &[u8]) -> (r: Result<(Objectives, PlayerScores), Error>)
    ensures
        match gzip_tree(src@) {
            Some(root) => decoding(paired(r), root),
            None => r is Err && r->Err_0@ == ErrorView::NBTError(gzip_error(src@)),
        },
{
    match Stats::from_gzip_reader(src) {
        Ok(stats) => Ok((stats.objectives, stats.player_scores)),
        Err(e) => Err(e),
    }
}

} // verus!
