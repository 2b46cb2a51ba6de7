//! The tag tree that a scoreboard snapshot is decoded from.
//!
//! The tree is read, and the text of a node is written, by the tag library
//! (the crate `nbt`). What this file states of those two is believed, not
//! verified: each such function says so above its header.

use crate::text::{decimal, str_eq};
use nbt::Value;
use vstd::prelude::*;

verus! {

#[verifier::external_type_specification]
#[verifier::external_body]
pub struct ExValue(nbt::Value);

/// A node of the tag tree.
#[derive(Debug, PartialEq)]
pub enum Tag {
    Byte(i8),
    Short(i16),
    Int(i32),
    Long(i64),
    /// A floating-point number of 32 bits, by its bit pattern.
    Float(u32),
    /// A floating-point number of 64 bits, by its bit pattern.
    Double(u64),
    ByteArray(Vec<i8>),
    String(String),
    /// The elements of a list, in order.
    List(Vec<Tag>),
    /// The named children of a compound node. Where a name occurs twice, the
    /// last child of that name is the one that counts.
    Compound(Vec<(String, Tag)>),
    IntArray(Vec<i32>),
    LongArray(Vec<i64>),
}

/// What a node is, as a mathematical value.
pub enum Node {
    Byte(i8),
    Short(i16),
    Int(i32),
    Long(i64),
    Float(u32),
    Double(u64),
    ByteArray(Seq<i8>),
    String(Seq<char>),
    List(Seq<Node>),
    Compound(Map<Seq<char>, Node>),
    IntArray(Seq<i32>),
    LongArray(Seq<i64>),
}

impl View for Tag {
    type V = Node;

    open spec fn view(&self) -> Node
        decreases self,
    {
        match self {
            Tag::Byte(v) => Node::Byte(*v),
            Tag::Short(v) => Node::Short(*v),
            Tag::Int(v) => Node::Int(*v),
            Tag::Long(v) => Node::Long(*v),
            Tag::Float(v) => Node::Float(*v),
            Tag::Double(v) => Node::Double(*v),
            Tag::ByteArray(v) => Node::ByteArray(v@),
            Tag::String(s) => Node::String(s@),
            Tag::List(items) => Node::List(nodes(items@)),
            Tag::Compound(entries) => Node::Compound(fields(entries@)),
            Tag::IntArray(v) => Node::IntArray(v@),
            Tag::LongArray(v) => Node::LongArray(v@),
        }
    }
}

/// The nodes that a sequence of tags stands for.
pub open spec fn nodes(items: Seq<Tag>) -> Seq<Node>
    decreases items,
{
    Seq::new(
        items.len(),
        |i: int|
            if 0 <= i < items.len() {
                items[i]@
            } else {
                Node::Byte(0)
            },
    )
}

/// Whether the entry at place `i` is the last one that is named `name`.
pub open spec fn last_at(entries: Seq<(String, Tag)>, name: Seq<char>, i: int) -> bool {
    &&& 0 <= i < entries.len()
    &&& entries[i].0@ == name
    &&& forall|j: int| i < j < entries.len() ==> (#[trigger] entries[j]).0@ != name
}

/// The place of the last entry that is named `name`.
pub open spec fn last_place(entries: Seq<(String, Tag)>, name: Seq<char>) -> int {
    choose|i: int| last_at(entries, name, i)
}

/// The children that the entries of a compound stand for, by their names.
pub open spec fn fields(entries: Seq<(String, Tag)>) -> Map<Seq<char>, Node>
    decreases entries,
{
    Map::new(
        |name: Seq<char>| exists|i: int| 0 <= i < entries.len() && (#[trigger] entries[i]).0@ == name,
        |name: Seq<char>|
            {
                let i = last_place(entries, name);
                if 0 <= i < entries.len() {
                    entries[i].1@
                } else {
                    Node::Byte(0)
                }
            },
    )
}

impl Node {
    /// The child of a compound node that is named `name`.
    pub open spec fn field(self, name: Seq<char>) -> Option<Node> {
        match self {
            Node::Compound(children) => if children.contains_key(name) {
                Some(children[name])
            } else {
                None
            },
            _ => None,
        }
    }
}

/// How the views of a list's items line up with the items.
pub proof fn lemma_nodes(items: Seq<Tag>)
    ensures
        nodes(items).len() == items.len(),
        forall|k: int| 0 <= k < items.len() ==> #[trigger] nodes(items)[k] == items[k]@,
{
}

/// The last entry of a name is the child of that name.
pub proof fn lemma_last_field(entries: Seq<(String, Tag)>, name: Seq<char>, i: int)
    requires
        last_at(entries, name, i),
    ensures
        fields(entries).contains_key(name),
        fields(entries)[name] == entries[i].1@,
{
    let chosen = last_place(entries, name);
    assert(last_at(entries, name, chosen));
    if chosen < i {
        assert(entries[i].0@ != name);
    } else if i < chosen {
        assert(entries[chosen].0@ != name);
    }
}

/// A name that no entry has is the name of no child.
pub proof fn lemma_no_field(entries: Seq<(String, Tag)>, name: Seq<char>)
    requires
        forall|j: int| 0 <= j < entries.len() ==> (#[trigger] entries[j]).0@ != name,
    ensures
        !fields(entries).contains_key(name),
{
}

/// Every name that has an entry has a last entry.
pub proof fn lemma_last_exists(entries: Seq<(String, Tag)>, name: Seq<char>, from: int)
    requires
        0 <= from < entries.len(),
        entries[from].0@ == name,
    ensures
        exists|i: int| last_at(entries, name, i),
    decreases entries.len() - from,
{
    if exists|j: int| from < j < entries.len() && (#[trigger] entries[j]).0@ == name {
        let j = choose|j: int| from < j < entries.len() && (#[trigger] entries[j]).0@ == name;
        lemma_last_exists(entries, name, j);
    } else {
        assert(last_at(entries, name, from));
    }
}

/// Entries with the same names and the same views, place by place, stand for
/// the same children.
pub proof fn lemma_same_fields(ours: Seq<(String, Tag)>, theirs: Seq<(String, Tag)>)
    requires
        ours.len() == theirs.len(),
        forall|k: int|
            0 <= k < ours.len() ==> (#[trigger] ours[k]).0@ == theirs[k].0@ && ours[k].1@
                == theirs[k].1@,
    ensures
        fields(ours) == fields(theirs),
{
    assert forall|name: Seq<char>| fields(ours).contains_key(name) implies fields(
        theirs,
    ).contains_key(name) && fields(ours)[name] == fields(theirs)[name] by {
        let k = choose|k: int| 0 <= k < ours.len() && (#[trigger] ours[k]).0@ == name;
        lemma_last_exists(ours, name, k);
        let i = choose|i: int| last_at(ours, name, i);
        assert forall|j: int| i < j < theirs.len() implies (#[trigger] theirs[j]).0@ != name by {
            assert(ours[j].0@ != name);
        }
        assert(ours[i].0@ == theirs[i].0@);
        assert(last_at(theirs, name, i));
        lemma_last_field(ours, name, i);
        lemma_last_field(theirs, name, i);
    }
    assert forall|name: Seq<char>| fields(theirs).contains_key(name) implies fields(
        ours,
    ).contains_key(name) by {
        let k = choose|k: int| 0 <= k < theirs.len() && (#[trigger] theirs[k]).0@ == name;
        assert(ours[k].0@ == name);
    }
    assert(fields(ours) =~= fields(theirs));
}

impl Tag {
    /// The child of a compound node that is named `name`; a node of another
    /// kind has no children.
    pub fn get(&self, name: &str) -> (r: Option<&Tag>)
        ensures
            match r {
                Some(t) => self@.field(name@) == Some(t@),
                None => self@.field(name@) is None,
            },
    {
        match self {
            Tag::Compound(entries) => {
                let ghost children = fields(entries@);
                let mut i: usize = entries.len();
                while i > 0
                    invariant
                        i <= entries.len(),
                        children == fields(entries@),
                        self@ == Node::Compound(children),
                        forall|j: int|
                            i <= j < entries.len() ==> (#[trigger] entries@[j]).0@ != name@,
                    decreases i,
                {
                    i -= 1;
                    if str_eq(entries[i].0.as_str(), name) {
                        proof {
                            lemma_last_field(entries@, name@, i as int);
                        }
                        return Some(&entries[i].1);
                    }
                }
                proof {
                    lemma_no_field(entries@, name@);
                }
                None
            },
            _ => None,
        }
    }
}

impl Clone for Tag {
    fn clone(&self) -> (r: Tag)
        ensures
            r@ == self@,
        decreases self,
    {
        match self {
            Tag::Byte(v) => Tag::Byte(*v),
            Tag::Short(v) => Tag::Short(*v),
            Tag::Int(v) => Tag::Int(*v),
            Tag::Long(v) => Tag::Long(*v),
            Tag::Float(v) => Tag::Float(*v),
            Tag::Double(v) => Tag::Double(*v),
            Tag::ByteArray(v) => {
                let copy = v.clone();
                assert(copy@ =~= v@);
                Tag::ByteArray(copy)
            },
            Tag::String(s) => Tag::String(s.clone()),
            Tag::List(items) => {
                let mut out: Vec<Tag> = Vec::new();
                let mut i: usize = 0;
                while i < items.len()
                    invariant
                        self is List,
                        self->List_0 == *items,
                        i <= items.len(),
                        out@.len() == i,
                        forall|k: int| 0 <= k < i ==> out@[k]@ == items@[k]@,
                    decreases items.len() - i,
                {
                    out.push(items[i].clone());
                    i += 1;
                }
                let r = Tag::List(out);
                proof {
                    lemma_nodes(out@);
                    lemma_nodes(items@);
                    assert(nodes(out@) =~= nodes(items@));
                }
                r
            },
            Tag::Compound(entries) => {
                let mut out: Vec<(String, Tag)> = Vec::new();
                let mut i: usize = 0;
                while i < entries.len()
                    invariant
                        self is Compound,
                        self->Compound_0 == *entries,
                        i <= entries.len(),
                        out@.len() == i,
                        forall|k: int|
                            0 <= k < i ==> (#[trigger] out@[k]).0@ == entries@[k].0@ && out@[k].1@
                                == entries@[k].1@,
                    decreases entries.len() - i,
                {
                    out.push((entries[i].0.clone(), entries[i].1.clone()));
                    i += 1;
                }
                let r = Tag::Compound(out);
                proof {
                    lemma_same_fields(out@, entries@);
                }
                r
            },
            Tag::IntArray(v) => {
                let copy = v.clone();
                assert(copy@ =~= v@);
                Tag::IntArray(copy)
            },
            Tag::LongArray(v) => {
                let copy = v.clone();
                assert(copy@ =~= v@);
                Tag::LongArray(copy)
            },
        }
    }
}

/// Whether no name stands twice in a sequence of entries.
pub open spec fn names_differ(entries: Seq<(String, Tag)>) -> bool {
    forall|i: int, j: int|
        0 <= i < j < entries.len() ==> (#[trigger] entries[i]).0@ != (#[trigger] entries[j]).0@
}

/// Whether every tag of a sequence is free of repeated names.
pub open spec fn all_distinct(items: Seq<Tag>) -> bool
    decreases items,
{
    forall|i: int| 0 <= i < items.len() ==> (#[trigger] items[i]).distinct()
}

/// Whether every child of a sequence of entries is free of repeated names.
pub open spec fn children_distinct(entries: Seq<(String, Tag)>) -> bool
    decreases entries,
{
    forall|i: int| 0 <= i < entries.len() ==> (#[trigger] entries[i]).1.distinct()
}

/// The children that were kept of the entries of a compound stand for the
/// same children, where the last entry of each name was kept, in order.
proof fn lemma_kept_fields(
    kept: Seq<(String, Tag)>,
    entries: Seq<(String, Tag)>,
    places: Seq<int>,
)
    requires
        kept.len() == places.len(),
        forall|k: int|
            0 <= k < kept.len() ==> last_at(entries, (#[trigger] kept[k]).0@, places[k])
                && kept[k].1@ == entries[places[k]].1@,
        forall|k1: int, k2: int|
            0 <= k1 < k2 < kept.len() ==> #[trigger] places[k1] < #[trigger] places[k2],
        forall|p: int|
            0 <= p < entries.len() && last_at(entries, (#[trigger] entries[p]).0@, p)
                ==> exists|k: int| 0 <= k < kept.len() && #[trigger] places[k] == p,
    ensures
        names_differ(kept),
        fields(kept) == fields(entries),
{
    assert forall|i: int, j: int| 0 <= i < j < kept.len() implies (#[trigger] kept[i]).0@ != (
    #[trigger] kept[j]).0@ by {
        assert(places[i] < places[j]);
        assert(last_at(entries, kept[i].0@, places[i]));
        assert(last_at(entries, kept[j].0@, places[j]));
        if kept[i].0@ == kept[j].0@ {
            assert(entries[places[j]].0@ != kept[i].0@);
        }
    }
    assert forall|name: Seq<char>| #[trigger]
        fields(entries).contains_key(name) implies fields(kept).contains_key(name) && fields(
        kept,
    )[name] == fields(entries)[name] by {
        let from = choose|i: int| 0 <= i < entries.len() && (#[trigger] entries[i]).0@ == name;
        lemma_last_exists(entries, name, from);
        let last = choose|i: int| last_at(entries, name, i);
        assert(last_at(entries, entries[last].0@, last));
        let k = choose|k: int| 0 <= k < kept.len() && #[trigger] places[k] == last;
        assert(last_at(entries, kept[k].0@, places[k]));
        assert(kept[k].0@ == name);
        assert forall|j: int| k < j < kept.len() implies (#[trigger] kept[j]).0@ != name by {
            assert(kept[k].0@ != kept[j].0@);
        }
        assert(last_at(kept, name, k));
        lemma_last_field(kept, name, k);
        lemma_last_field(entries, name, last);
    }
    assert forall|name: Seq<char>| #[trigger]
        fields(kept).contains_key(name) implies fields(entries).contains_key(name) by {
        let k = choose|k: int| 0 <= k < kept.len() && (#[trigger] kept[k]).0@ == name;
        assert(last_at(entries, kept[k].0@, places[k]));
        assert(entries[places[k]].0@ == name);
    }
    assert(fields(kept) =~= fields(entries));
}

/// Whether an entry after the one at place `i` has the same name.
fn shadowed(entries: &Vec<(String, Tag)>, i: usize) -> (r: bool)
    requires
        i < entries.len(),
    ensures
        r == !last_at(entries@, entries@[i as int].0@, i as int),
{
    let mut j: usize = i + 1;
    while j < entries.len()
        invariant
            i < j <= entries@.len(),
            forall|k: int| i < k < j ==> (#[trigger] entries@[k]).0@ != entries@[i as int].0@,
        decreases entries.len() - j,
    {
        if str_eq(entries[j].0.as_str(), entries[i].0.as_str()) {
            return true;
        }
        j += 1;
    }
    false
}

impl Tag {
    /// Whether no compound of the tag, at any depth, has two children of one
    /// name.
    pub open spec fn distinct(&self) -> bool
        decreases self,
    {
        match self {
            Tag::List(items) => all_distinct(items@),
            Tag::Compound(entries) => names_differ(entries@) && children_distinct(entries@),
            _ => true,
        }
    }

    /// A tag that stands for the same node, in which no compound has two
    /// children of one name: of the children of one name the last is kept,
    /// which is the one that counts.
    pub fn without_shadowed(&self) -> (r: Tag)
        ensures
            r@ == self@,
            r.distinct(),
        decreases self,
    {
        match self {
            Tag::List(items) => {
                let mut out: Vec<Tag> = Vec::new();
                let mut i: usize = 0;
                while i < items.len()
                    invariant
                        self is List,
                        self->List_0 == *items,
                        i <= items.len(),
                        out@.len() == i,
                        forall|k: int|
                            0 <= k < i ==> (#[trigger] out@[k])@ == items@[k]@ && out@[k].distinct(),
                    decreases items.len() - i,
                {
                    out.push(items[i].without_shadowed());
                    i += 1;
                }
                let r = Tag::List(out);
                proof {
                    lemma_nodes(out@);
                    lemma_nodes(items@);
                    assert(nodes(out@) =~= nodes(items@));
                    assert(all_distinct(out@));
                }
                r
            },
            Tag::Compound(entries) => {
                let mut out: Vec<(String, Tag)> = Vec::new();
                let ghost mut places: Seq<int> = Seq::empty();
                let mut i: usize = 0;
                while i < entries.len()
                    invariant
                        self is Compound,
                        self->Compound_0 == *entries,
                        i <= entries.len(),
                        out@.len() == places.len(),
                        forall|k: int|
                            0 <= k < out@.len() ==> 0 <= #[trigger] places[k] < i && last_at(
                                entries@,
                                out@[k].0@,
                                places[k],
                            ) && out@[k].1@ == entries@[places[k]].1@ && out@[k].1.distinct(),
                        forall|k1: int, k2: int|
                            0 <= k1 < k2 < out@.len() ==> #[trigger] places[k1]
                                < #[trigger] places[k2],
                        forall|p: int|
                            0 <= p < i && last_at(entries@, (#[trigger] entries@[p]).0@, p)
                                ==> exists|k: int| 0 <= k < out@.len() && #[trigger] places[k] == p,
                    decreases entries.len() - i,
                {
                    if !shadowed(entries, i) {
                        let ghost before = places;
                        let child = entries[i].1.without_shadowed();
                        out.push((entries[i].0.clone(), child));
                        proof {
                            places = places.push(i as int);
                            assert forall|p: int|
                                0 <= p < i + 1 && last_at(
                                    entries@,
                                    (#[trigger] entries@[p]).0@,
                                    p,
                                ) implies exists|k: int|
                                0 <= k < out@.len() && #[trigger] places[k] == p by {
                                if p < i {
                                    let k = choose|k: int|
                                        0 <= k < before.len() && #[trigger] before[k] == p;
                                    assert(places[k] == p);
                                } else {
                                    assert(places[out@.len() - 1] == p);
                                }
                            }
                        }
                    }
                    i += 1;
                }
                let r = Tag::Compound(out);
                proof {
                    lemma_kept_fields(out@, entries@, places);
                    assert forall|k: int| 0 <= k < out@.len() implies (#[trigger] out@[k]).1.distinct() by {
                        assert(0 <= places[k]);
                    }
                    assert(children_distinct(out@));
                }
                r
            },
            _ => {
                let r = self.clone();
                assert(!(r@ is List) && !(r@ is Compound));
                r
            },
        }
    }
}

/// The text of a node that holds a string or an integer: the string itself,
/// or the integer in decimal.
pub open spec fn plain_text(node: Node) -> Option<Seq<char>> {
    match node {
        Node::Byte(v) => Some(decimal(v as int)),
        Node::Short(v) => Some(decimal(v as int)),
        Node::Int(v) => Some(decimal(v as int)),
        Node::Long(v) => Some(decimal(v as int)),
        Node::String(s) => Some(s),
        _ => None,
    }
}

/// Whether the text of a node is settled by the node: it is, unless the node
/// is or holds a compound of more than one child, whose children the tag
/// library writes in an order that is not fixed.
pub open spec fn settled(node: Node) -> bool
    decreases node,
{
    match node {
        Node::List(items) => forall|i: int|
            0 <= i < items.len() ==> settled(#[trigger] items[i]),
        Node::Compound(children) => {
            &&& children.dom().finite()
            &&& children.dom().len() <= 1
            &&& forall|name: Seq<char>|
                children.contains_key(name) ==> settled(#[trigger] children[name])
        },
        _ => true,
    }
}

/// What the tag library writes for a node whose text is settled and that
/// holds neither a string nor an integer.
pub uninterp spec fn rendering(node: Node) -> Seq<char>;

/// The text of a node: that of a string or an integer as `plain_text` gives
/// it, that of any other node as the tag library writes it.
pub open spec fn node_text(node: Node) -> Seq<char> {
    match plain_text(node) {
        Some(text) => text,
        None => rendering(node),
    }
}

/// `nbt::Value::from_reader`, for the kind of a 32-bit floating-point number,
/// on the four bytes of `bits`, most significant first: the value with that
/// bit pattern. The reader fails only where bytes are missing, and here all
/// four are given.
#[verifier::external_body]
fn float_value(bits: u32) -> Value {
    Value::from_reader(0x05, &mut &bits.to_be_bytes()[..]).unwrap()
}

/// `nbt::Value::from_reader`, for the kind of a 64-bit floating-point number,
/// on the eight bytes of `bits`, most significant first: the value with that
/// bit pattern. The reader fails only where bytes are missing, and here all
/// eight are given.
#[verifier::external_body]
fn double_value(bits: u64) -> Value {
    Value::from_reader(0x06, &mut &bits.to_be_bytes()[..]).unwrap()
}

/// Builds the `nbt::Value` of the same kind and content as a tag that is
/// neither a list nor a compound, variant by variant.
#[verifier::external_body]
fn leaf_value(tag: &Tag) -> Value {
    match tag {
        Tag::Byte(v) => Value::Byte(*v),
        Tag::Short(v) => Value::Short(*v),
        Tag::Int(v) => Value::Int(*v),
        Tag::Long(v) => Value::Long(*v),
        Tag::Float(v) => float_value(*v),
        Tag::Double(v) => double_value(*v),
        Tag::ByteArray(v) => Value::ByteArray(v.clone()),
        Tag::String(v) => Value::String(v.clone()),
        Tag::IntArray(v) => Value::IntArray(v.clone()),
        Tag::LongArray(v) => Value::LongArray(v.clone()),
        other => value_of(other),
    }
}

/// Builds the `nbt::Value` of the same kind and content as `tag`. The
/// children of a compound are collected into the map of the tag library;
/// where no name stands twice, each child becomes one entry of the map.
#[verifier::external_body]
fn value_of(tag: &Tag) -> Value {
    match tag {
        Tag::List(items) => Value::List(items.iter().map(value_of).collect()),
        Tag::Compound(entries) => Value::Compound(
            entries.iter().map(|e| (e.0.clone(), value_of(&e.1))).collect(),
        ),
        leaf => leaf_value(leaf),
    }
}

/// `to_string` of `nbt::Value`, that is its `Display`, on the value that
/// `value_of` builds of `tag`. The tag must be free of repeated names, so
/// that the value holds every child of the tag and no other. A string is
/// written as it is, an integer of any width in decimal. What is written for
/// a node of another kind is a function of the node, named `rendering`,
/// where the text of the node is settled. Where the node is or holds a
/// compound of several children, the tag library walks a hash map, and
/// nothing is stated.
#[verifier::external_body]
fn value_text(tag: &Tag) -> (s: String)
    requires
        tag.distinct(),
    ensures
        plain_text(tag@) is Some ==> s@ == plain_text(tag@)->0,
        plain_text(tag@) is None && settled(tag@) ==> s@ == rendering(tag@),
{
    value_of(tag).to_string()
}

impl Tag {
    /// The text of the node: a string as it is, an integer in decimal, and a
    /// node of another kind as the tag library writes it. Children of a
    /// compound that a later child of the same name shadows are left out
    /// before the text is written.
    pub fn text(&self) -> (s: String)
        ensures
            settled(self@) ==> s@ == node_text(self@),
    {
        let clean = self.without_shadowed();
        value_text(&clean)
    }
}

/// The root of the tag tree that the bytes of a gzip-compressed file hold,
/// if they hold one.
pub uninterp spec fn gzip_tree(bytes: Seq<u8>) -> Option<Node>;

/// The message with which the tag library refuses bytes that hold no tree.
pub uninterp spec fn gzip_error(bytes: Seq<u8>) -> Seq<char>;

/// Builds the tag of the same kind and content as a value of the tag library
/// that is neither a list nor a compound, variant by variant.
#[verifier::external_body]
fn leaf_tag(value: &Value) -> Tag {
    match value {
        Value::Byte(v) => Tag::Byte(*v),
        Value::Short(v) => Tag::Short(*v),
        Value::Int(v) => Tag::Int(*v),
        Value::Long(v) => Tag::Long(*v),
        Value::Float(v) => Tag::Float(v.to_bits()),
        Value::Double(v) => Tag::Double(v.to_bits()),
        Value::ByteArray(v) => Tag::ByteArray(v.clone()),
        Value::String(v) => Tag::String(v.clone()),
        Value::IntArray(v) => Tag::IntArray(v.clone()),
        Value::LongArray(v) => Tag::LongArray(v.clone()),
        other => tag_of(other),
    }
}

/// Builds the tag of the same kind and content as a value of the tag
/// library.
#[verifier::external_body]
fn tag_of(value: &Value) -> Tag {
    match value {
        Value::List(items) => Tag::List(items.iter().map(tag_of).collect()),
        Value::Compound(entries) => Tag::Compound(
            entries.iter().map(|e| (e.0.clone(), tag_of(e.1))).collect(),
        ),
        leaf => leaf_tag(leaf),
    }
}

/// `nbt::from_gzip_reader`, on bytes in memory: decompresses the bytes and
/// reads the root compound of the tree in them. Bytes that hold no such tree
/// are refused, with the reader's message.
#[verifier::external_body]
pub(crate) fn read_gzip(src: &[u8]) -> (r: Result<Tag, String>)
    ensures
        match r {
            Ok(root) => gzip_tree(src@) == Some(root@),
            Err(message) => gzip_tree(src@) is None && message@ == gzip_error(src@),
        },
{
    match nbt::from_gzip_reader::<_, nbt::Map<String, Value>>(src) {
        Ok(root) => Ok(tag_of(&Value::Compound(root))),
        Err(e) => Err(e.to_string()),
    }
}

} // verus!
