//! JSON documents as plain values.
//!
//! A document is what a JSON parser handed over: objects keep the order of
//! their members, and a number carries the notation it was written in next to
//! the bit pattern of the double it denotes.
use crate::text::{same, text_of, views};
use vstd::prelude::*;

verus! {

/// How a number is written.
#[derive(Clone, Copy, Debug, PartialEq, Eq, Structural)]
pub enum Notation {
    /// A non-negative integer.
    Unsigned(u64),
    /// A negative integer.
    Negative(i64),
    /// Anything else: the double itself is all there is to it.
    Double,
}

/// A number: its notation, and the bits of the nearest double.
#[derive(Clone, Copy, Debug, PartialEq, Eq, Structural)]
pub struct Numeric {
    pub notation: Notation,
    pub bits: u64,
}

/// A JSON document.
#[derive(Debug)]
pub enum Json {
    Null,
    Bool(bool),
    Number(Numeric),
    /// An integer that the console itself writes; no parser gives one.
    Whole(i64),
    Text(String),
    Array(Vec<Json>),
    Object(Vec<(String, Json)>),
}

/// A JSON document as a mathematical value.
#[verifier::ext_equal]
pub enum Tree {
    Null,
    Bool(bool),
    Number(Numeric),
    Whole(int),
    Text(Seq<char>),
    Array(Seq<Tree>),
    Object(Seq<(Seq<char>, Tree)>),
}

impl Json {
    pub open spec fn tree(&self) -> Tree
        decreases self,
    {
        match self {
            Json::Null => Tree::Null,
            Json::Bool(b) => Tree::Bool(*b),
            Json::Number(n) => Tree::Number(*n),
            Json::Whole(n) => Tree::Whole(*n as int),
            Json::Text(s) => Tree::Text(s@),
            Json::Array(items) => Tree::Array(
                Seq::new(
                    items@.len(),
                    |i: int|
                        if 0 <= i < items@.len() {
                            items@[i].tree()
                        } else {
                            Tree::Null
                        },
                ),
            ),
            Json::Object(members) => Tree::Object(
                Seq::new(
                    members@.len(),
                    |i: int|
                        if 0 <= i < members@.len() {
                            (members@[i].0@, members@[i].1.tree())
                        } else {
                            (Seq::empty(), Tree::Null)
                        },
                ),
            ),
        }
    }

    /// Whether two documents are the same, member order and notation of
    /// numbers included.
    pub fn same_as(&self, other: &Json) -> (r: bool)
        ensures
            r == (self.tree() == other.tree()),
        decreases self,
    {
        match (self, other) {
            (Json::Null, Json::Null) => true,
            (Json::Bool(a), Json::Bool(b)) => *a == *b,
            (Json::Number(a), Json::Number(b)) => *a == *b,
            (Json::Whole(a), Json::Whole(b)) => *a == *b,
            (Json::Text(a), Json::Text(b)) => same(a.as_str(), b.as_str()),
            (Json::Array(a), Json::Array(b)) => {
                let ghost p = self.tree()->Array_0;
                let ghost q = other.tree()->Array_0;
                if a.len() != b.len() {
                    assert(p.len() != q.len());
                    return false;
                }
                let mut i: usize = 0;
                while i < a.len()
                    invariant
                        *self == Json::Array(*a),
                        *other == Json::Array(*b),
                        p == self.tree()->Array_0,
                        q == other.tree()->Array_0,
                        a@.len() == b@.len(),
                        i <= a@.len(),
                        forall|j: int| 0 <= j < i ==> p[j] == q[j],
                    decreases a@.len() - i,
                {
                    if !a[i].same_as(&b[i]) {
                        assert(p[i as int] != q[i as int]);
                        return false;
                    }
                    i += 1;
                }
                assert(p =~= q);
                true
            },
            (Json::Object(a), Json::Object(b)) => {
                let ghost p = self.tree()->Object_0;
                let ghost q = other.tree()->Object_0;
                if a.len() != b.len() {
                    assert(p.len() != q.len());
                    return false;
                }
                let mut i: usize = 0;
                while i < a.len()
                    invariant
                        *self == Json::Object(*a),
                        *other == Json::Object(*b),
                        p == self.tree()->Object_0,
                        q == other.tree()->Object_0,
                        a@.len() == b@.len(),
                        i <= a@.len(),
                        forall|j: int| 0 <= j < i ==> p[j] == q[j],
                    decreases a@.len() - i,
                {
                    if !same(a[i].0.as_str(), b[i].0.as_str()) || !a[i].1.same_as(&b[i].1) {
                        assert(p[i as int] != q[i as int]);
                        return false;
                    }
                    i += 1;
                }
                assert(p =~= q);
                true
            },
            _ => false,
        }
    }

    /// A document equal to this one.
    pub fn copy(&self) -> (r: Json)
        ensures
            r.tree() == self.tree(),
        decreases self,
    {
        match self {
            Json::Null => Json::Null,
            Json::Bool(b) => Json::Bool(*b),
            Json::Number(n) => Json::Number(*n),
            Json::Whole(n) => Json::Whole(*n),
            Json::Text(s) => Json::Text(s.clone()),
            Json::Array(items) => {
                let mut out: Vec<Json> = Vec::new();
                let ghost p = self.tree()->Array_0;
                let mut i: usize = 0;
                while i < items.len()
                    invariant
                        *self == Json::Array(*items),
                        p == self.tree()->Array_0,
                        i <= items@.len(),
                        out@.len() == i,
                        forall|j: int| 0 <= j < i ==> (#[trigger] out@[j]).tree() == p[j],
                    decreases items@.len() - i,
                {
                    out.push(items[i].copy());
                    i += 1;
                }
                let r = Json::Array(out);
                assert(r.tree()->Array_0 =~= p);
                r
            },
            Json::Object(members) => {
                let mut out: Vec<(String, Json)> = Vec::new();
                let ghost p = self.tree()->Object_0;
                let mut i: usize = 0;
                while i < members.len()
                    invariant
                        *self == Json::Object(*members),
                        p == self.tree()->Object_0,
                        i <= members@.len(),
                        out@.len() == i,
                        forall|j: int|
                            0 <= j < i ==> ((#[trigger] out@[j]).0@, out@[j].1.tree()) == p[j],
                    decreases members@.len() - i,
                {
                    out.push((members[i].0.clone(), members[i].1.copy()));
                    i += 1;
                }
                let r = Json::Object(out);
                assert(r.tree()->Object_0 =~= p);
                r
            },
        }
    }

    /// The member `key` of an object.
    pub fn get(&self, key: &str) -> (r: Option<&Json>)
        ensures
            match r {
                Some(value) => self.tree().member(key@) == Some(value.tree()),
                None => self.tree().member(key@) is None,
            },
    {
        match self {
            Json::Object(members) => {
                let ghost all = self.tree()->Object_0;
                assert(all.skip(0) =~= all);
                let mut i: usize = 0;
                while i < members.len()
                    invariant
                        *self == Json::Object(*members),
                        all == self.tree()->Object_0,
                        i <= members@.len(),
                        first_member(all, key@) == first_member(all.skip(i as int), key@),
                    decreases members@.len() - i,
                {
                    let ghost s = all.skip(i as int);
                    assert(s[0] == (members@[i as int].0@, members@[i as int].1.tree()));
                    if same(members[i].0.as_str(), key) {
                        return Some(&members[i].1);
                    }
                    assert(s.skip(1) =~= all.skip(i + 1));
                    i += 1;
                }
                None
            },
            _ => None,
        }
    }

    /// The elements of an array.
    pub fn as_array(&self) -> (r: Option<&Vec<Json>>)
        ensures
            match r {
                Some(items) => self.tree() == Tree::Array(trees(items@)),
                None => !(self.tree() is Array),
            },
    {
        match self {
            Json::Array(items) => {
                assert(self.tree()->Array_0 =~= trees(items@));
                Some(items)
            },
            _ => None,
        }
    }

    /// The text of a string.
    pub fn as_str(&self) -> (r: Option<&str>)
        ensures
            match r {
                Some(text) => self.tree() == Tree::Text(text@),
                None => !(self.tree() is Text),
            },
    {
        match self {
            Json::Text(text) => Some(text.as_str()),
            _ => None,
        }
    }

    /// The bits of the double that a number denotes.
    pub fn as_bits(&self) -> (r: Option<u64>)
        ensures
            r == self.tree().bits(),
    {
        match self {
            Json::Number(n) => Some(n.bits),
            _ => None,
        }
    }

    /// The value of a number written as a non-negative integer.
    pub fn as_unsigned(&self) -> (r: Option<u64>)
        ensures
            r == self.tree().unsigned(),
    {
        match self {
            Json::Number(n) => match n.notation {
                Notation::Unsigned(value) => Some(value),
                _ => None,
            },
            _ => None,
        }
    }
}

// ---------------------------------------------------------------------------
// Building documents

/// An object of one member.
pub open spec fn t_object1(key: Seq<char>, value: Tree) -> Tree {
    Tree::Object(seq![(key, value)])
}

/// An object of two members.
pub open spec fn t_object2(a: Seq<char>, x: Tree, b: Seq<char>, y: Tree) -> Tree {
    Tree::Object(seq![(a, x), (b, y)])
}

/// An object of three members.
pub open spec fn t_object3(
    a: Seq<char>,
    x: Tree,
    b: Seq<char>,
    y: Tree,
    c: Seq<char>,
    z: Tree,
) -> Tree {
    Tree::Object(seq![(a, x), (b, y), (c, z)])
}

/// A text, or null.
pub open spec fn t_opt_text(text: Option<Seq<char>>) -> Tree {
    match text {
        Some(t) => Tree::Text(t),
        None => Tree::Null,
    }
}

/// A JSON text.
pub fn j_text(text: &str) -> (r: Json)
    ensures
        r.tree() == Tree::Text(text@),
{
    Json::Text(text.to_owned())
}

/// An object under construction.
pub struct ObjectBuilder {
    pub members: Vec<(String, Json)>,
}

/// The members that a list holds.
pub open spec fn member_trees(members: Seq<(String, Json)>) -> Seq<(Seq<char>, Tree)> {
    Seq::new(members.len(), |i: int| (members[i].0@, members[i].1.tree()))
}

impl ObjectBuilder {
    /// An object without members.
    pub fn new() -> (r: ObjectBuilder)
        ensures
            member_trees(r.members@) == Seq::<(Seq<char>, Tree)>::empty(),
    {
        let r = ObjectBuilder { members: Vec::new() };
        assert(member_trees(r.members@) =~= Seq::<(Seq<char>, Tree)>::empty());
        r
    }

    /// Adds a last member.
    pub fn put(&mut self, key: &str, value: Json)
        ensures
            member_trees(final(self).members@) == member_trees(old(self).members@).push(
                (key@, value.tree()),
            ),
    {
        let ghost before = member_trees(self.members@);
        self.members.push((key.to_owned(), value));
        assert(member_trees(self.members@) =~= before.push((key@, value.tree())));
    }

    /// The object.
    pub fn done(self) -> (r: Json)
        ensures
            r.tree() == Tree::Object(member_trees(self.members@)),
    {
        let ghost all = member_trees(self.members@);
        let r = Json::Object(self.members);
        assert(r.tree()->Object_0 =~= all);
        r
    }
}

/// An array of documents.
pub fn j_array(items: Vec<Json>) -> (r: Json)
    ensures
        r.tree() == Tree::Array(trees(items@)),
{
    let ghost all = trees(items@);
    let r = Json::Array(items);
    assert(r.tree()->Array_0 =~= all);
    r
}

/// An object of one member.
pub fn j_object1(key: &str, value: Json) -> (r: Json)
    ensures
        r.tree() == t_object1(key@, value.tree()),
{
    let mut object = ObjectBuilder::new();
    object.put(key, value);
    assert(member_trees(object.members@) =~= seq![(key@, value.tree())]);
    object.done()
}

/// An object of two members.
pub fn j_object2(a: &str, x: Json, b: &str, y: Json) -> (r: Json)
    ensures
        r.tree() == t_object2(a@, x.tree(), b@, y.tree()),
{
    let mut object = ObjectBuilder::new();
    object.put(a, x);
    object.put(b, y);
    assert(member_trees(object.members@) =~= seq![(a@, x.tree()), (b@, y.tree())]);
    object.done()
}

/// An object of three members.
pub fn j_object3(a: &str, x: Json, b: &str, y: Json, c: &str, z: Json) -> (r: Json)
    ensures
        r.tree() == t_object3(a@, x.tree(), b@, y.tree(), c@, z.tree()),
{
    let mut object = ObjectBuilder::new();
    object.put(a, x);
    object.put(b, y);
    object.put(c, z);
    assert(member_trees(object.members@) =~= seq![
        (a@, x.tree()),
        (b@, y.tree()),
        (c@, z.tree()),
    ]);
    object.done()
}

/// The documents that a list holds.
pub open spec fn trees(items: Seq<Json>) -> Seq<Tree> {
    Seq::new(items.len(), |i: int| items[i].tree())
}

/// The first member named `key`.
pub open spec fn first_member(members: Seq<(Seq<char>, Tree)>, key: Seq<char>) -> Option<Tree>
    decreases members.len(),
{
    if members.len() == 0 {
        None
    } else if members[0].0 == key {
        Some(members[0].1)
    } else {
        first_member(members.skip(1), key)
    }
}

impl Tree {
    /// The member `key` of an object.
    pub open spec fn member(self, key: Seq<char>) -> Option<Tree> {
        match self {
            Tree::Object(members) => first_member(members, key),
            _ => None,
        }
    }

    pub open spec fn bits(self) -> Option<u64> {
        match self {
            Tree::Number(n) => Some(n.bits),
            _ => None,
        }
    }

    pub open spec fn unsigned(self) -> Option<u64> {
        match self {
            Tree::Number(n) => match n.notation {
                Notation::Unsigned(value) => Some(value),
                _ => None,
            },
            _ => None,
        }
    }

    /// What a chain of member names leads to.
    pub open spec fn at(self, path: Seq<Seq<char>>) -> Option<Tree>
        decreases path.len(),
    {
        if path.len() == 0 {
            Some(self)
        } else {
            match self.member(path[0]) {
                Some(next) => next.at(path.skip(1)),
                None => None,
            }
        }
    }
}

/// What a chain of member names leads to.
pub fn json_at<'a>(root: &'a Json, path: &[Vec<char>]) -> (r: Option<&'a Json>)
    ensures
        match r {
            Some(value) => root.tree().at(views(path@)) == Some(value.tree()),
            None => root.tree().at(views(path@)) is None,
        },
{
    let ghost all = views(path@);
    let ghost whole = root.tree().at(all);
    assert(all.skip(0) =~= all);
    let mut current = root;
    let mut i: usize = 0;
    while i < path.len()
        invariant
            i <= path@.len(),
            all == views(path@),
            whole == root.tree().at(all),
            whole == current.tree().at(all.skip(i as int)),
        decreases path@.len() - i,
    {
        let ghost s = all.skip(i as int);
        assert(s[0] == path@[i as int]@);
        assert(s.skip(1) =~= all.skip(i + 1));
        let segment = text_of(path[i].as_slice());
        match current.get(segment.as_str()) {
            Some(next) => {
                current = next;
            },
            None => {
                return None;
            },
        }
        i += 1;
    }
    Some(current)
}

// ---------------------------------------------------------------------------
// Laws

/// A member is found under its own name: of several with one name it is the
/// first, and other members change nothing.
pub proof fn law_members_are_found_by_name(
    front: Seq<(Seq<char>, Tree)>,
    key: Seq<char>,
    value: Tree,
    rest: Seq<(Seq<char>, Tree)>,
)
    requires
        forall|i: int| 0 <= i < front.len() ==> (#[trigger] front[i]).0 != key,
    ensures
        Tree::Object(front + seq![(key, value)] + rest).member(key) == Some(value),
        Tree::Object(front).member(key) is None,
    decreases front.len(),
{
    let all = front + seq![(key, value)] + rest;
    if front.len() == 0 {
        assert(all[0] == (key, value));
    } else {
        let t = front.skip(1);
        assert forall|i: int| 0 <= i < t.len() implies (#[trigger] t[i]).0 != key by {
            assert(t[i] == front[i + 1]);
        }
        law_members_are_found_by_name(t, key, value, rest);
        assert(all[0] == front[0]);
        assert(all.skip(1) =~= t + seq![(key, value)] + rest);
    }
}

/// A chain of names leads from member to member: the empty one stays, one name
/// leads to a member, and a longer chain goes on from there.
pub proof fn law_chains_go_from_member_to_member(
    tree: Tree,
    name: Seq<char>,
    next: Seq<char>,
    rest: Seq<Seq<char>>,
)
    ensures
        tree.at(Seq::empty()) == Some(tree),
        tree.at(seq![name]) == tree.member(name),
        tree.member(name) matches Some(inner) ==> tree.at(seq![name, next]) == inner.member(next)
            && tree.at(seq![name] + rest) == inner.at(rest),
        tree.member(name) is None ==> tree.at(seq![name] + rest) is None && tree.at(
            seq![name, next],
        ) is None,
{
    let none = Seq::<Seq<char>>::empty();
    assert(seq![name].skip(1) =~= none);
    assert(seq![name, next].skip(1) =~= seq![next]);
    assert(seq![next].skip(1) =~= none);
    assert((seq![name] + rest).skip(1) =~= rest);
    assert((seq![name] + rest)[0] == name);
    reveal_with_fuel(Tree::at, 3);
}

/// Only a number has a value, and only one that is written without a sign, a
/// point or an exponent is unsigned.
pub proof fn law_only_numbers_have_values(tree: Tree, number: Numeric, value: u64)
    ensures
        Tree::Number(number).bits() == Some(number.bits),
        !(tree is Number) ==> tree.bits() is None && tree.unsigned() is None,
        number.notation == Notation::Unsigned(value) ==> Tree::Number(number).unsigned() == Some(
            value,
        ),
        !(number.notation is Unsigned) ==> Tree::Number(number).unsigned() is None,
        !(tree is Object) ==> forall|key: Seq<char>| (#[trigger] tree.member(key)) is None,
{
}

} // verus!
