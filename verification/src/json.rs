//! JSON values.
//!
//! Text becomes a value through `serde_json`, which parses it; what the parse
//! gives back is taken apart level by level. In the same way a value is put
//! together again where `serde_json` prints or compares it.

use vstd::prelude::*;
use vstd::string::*;

use crate::assoc;
use crate::text::{self, copy_of};

verus! {

/// A number of `serde_json`.
#[verifier::external_type_specification]
#[verifier::external_body]
pub struct ExNumber(serde_json::Number);

/// A value of `serde_json`.
#[verifier::external_type_specification]
#[verifier::external_body]
pub struct ExValue(serde_json::Value);

/// What `serde_json` says of text that it cannot parse.
#[verifier::external_type_specification]
#[verifier::external_body]
pub struct ExJsonError(serde_json::Error);

/// The text that a `serde_json::Number` prints as.
pub uninterp spec fn number_text(number: serde_json::Number) -> Seq<char>;

/// What a `serde_json::Value` holds.
pub uninterp spec fn value_tree(value: serde_json::Value) -> Tree;

/// What `serde_json::from_str` makes of a text as a `serde_json::Value`: the
/// tree of the value, or nothing where the text is refused.
pub uninterp spec fn parsed_tree(text: Seq<char>) -> Option<Tree>;

/// A JSON value.
#[derive(Debug, PartialEq, Eq)]
pub enum Json {
    Null,
    Bool(bool),
    Number(serde_json::Number),
    Text(String),
    Array(Vec<Json>),
    Object(Members),
}

/// The members of an object, each name once, in the order in which they came.
#[derive(Debug, PartialEq, Eq)]
pub struct Members {
    list: Vec<(String, Json)>,
}

/// A JSON value as a tree of plain values. A number stands as the text that it
/// prints as.
pub enum Tree {
    Null,
    Bool(bool),
    Number(Seq<char>),
    Text(Seq<char>),
    Array(Seq<Tree>),
    Object(Seq<(Seq<char>, Tree)>),
}

impl Json {
    /// The tree that a value stands for.
    pub open spec fn tree(self) -> Tree
        decreases self,
    {
        match self {
            Json::Null => Tree::Null,
            Json::Bool(b) => Tree::Bool(b),
            Json::Number(n) => Tree::Number(number_text(n)),
            Json::Text(s) => Tree::Text(s@),
            Json::Array(items) => Tree::Array(
                Seq::new(
                    items@.len(),
                    |i: int|
                        if 0 <= i < items@.len() {
                            items@[i].tree()
                        } else {
                            Tree::Null
                        },
                ),
            ),
            Json::Object(members) => Tree::Object(
                Seq::new(
                    members.items().len(),
                    |i: int|
                        if 0 <= i < members.items().len() {
                            (members.items()[i].0@, members.items()[i].1.tree())
                        } else {
                            (Seq::empty(), Tree::Null)
                        },
                ),
            ),
        }
    }
}

impl View for Json {
    type V = Tree;

    open spec fn view(&self) -> Tree {
        self.tree()
    }
}

/// The trees of a list of values.
pub open spec fn trees(items: Seq<Json>) -> Seq<Tree> {
    items.map_values(|j: Json| j@)
}

pub broadcast proof fn tree_of_array(items: Vec<Json>)
    ensures
        #[trigger] Json::Array(items)@ == Tree::Array(trees(items@)),
{
    assert(Json::Array(items)@->Array_0 =~= trees(items@));
}

pub broadcast proof fn tree_of_object(members: Members)
    ensures
        #[trigger] Json::Object(members)@ == Tree::Object(assoc::entries(members.items())),
{
    assert(Json::Object(members)@->Object_0 =~= assoc::entries(members.items()));
}

impl Members {
    #[verifier::type_invariant]
    spec fn named_once(self) -> bool {
        assoc::distinct(assoc::entries(self.list@))
    }

    /// The members in order.
    pub closed spec fn items(self) -> Seq<(String, Json)> {
        self.list@
    }

    /// No members.
    pub fn new() -> (members: Members)
        ensures
            members.items() == Seq::<(String, Json)>::empty(),
    {
        Members { list: Vec::new() }
    }

    /// The members in order.
    pub fn as_list(&self) -> (list: &Vec<(String, Json)>)
        ensures
            list@ == self.items(),
    {
        &self.list
    }

    /// Sets the member `key`: in place of the one that was there, or at the end.
    pub fn insert(&mut self, key: &str, value: Json)
        ensures
            assoc::entries(final(self).items()) == assoc::put(
                assoc::entries(old(self).items()),
                key@,
                value@,
            ),
    {
        proof {
            use_type_invariant(&*self);
            assoc::put_is_found(assoc::entries(self.list@), key@, value@);
        }
        let mut whole = Members::new();
        std::mem::swap(&mut whole, self);
        let Members { mut list } = whole;
        assoc::insert(&mut list, key, value);
        *self = Members { list };
    }
}

/// An object with the given members.
pub fn object(list: Vec<(String, Json)>) -> (json: Json)
    requires
        assoc::distinct(assoc::entries(list@)),
    ensures
        json@ == Tree::Object(assoc::entries(list@)),
{
    broadcast use tree_of_object;

    Json::Object(Members { list })
}

/// `serde_json::Number`'s `From<u64>`: the number prints as its decimal digits.
#[verifier::external_body]
fn number_from(n: u64) -> (number: serde_json::Number)
    ensures
        number_text(number) == text::digits_of(n as nat),
{
    serde_json::Number::from(n)
}

/// `serde_json::Number`'s `clone`: the copy prints alike.
#[verifier::external_body]
fn copy_number(number: &serde_json::Number) -> (copy: serde_json::Number)
    ensures
        number_text(copy) == number_text(*number),
{
    number.clone()
}

/// A whole number.
pub fn number(n: u64) -> (json: Json)
    ensures
        json@ == Tree::Number(text::digits_of(n as nat)),
{
    Json::Number(number_from(n))
}

impl Tree {
    /// The member named `key`, where the value is an object that has one.
    pub open spec fn get(self, key: Seq<char>) -> Option<Tree> {
        match self {
            Tree::Object(members) => assoc::lookup(members, key),
            _ => None,
        }
    }

    /// The characters of a string.
    pub open spec fn text(self) -> Option<Seq<char>> {
        match self {
            Tree::Text(s) => Some(s),
            _ => None,
        }
    }

    /// Whether members can be set: on an object, and on null, which counts as an
    /// empty one.
    pub open spec fn takes_members(self) -> bool {
        self is Object || self is Null
    }

    /// The value with `value` as its member `key`.
    pub open spec fn with(self, key: Seq<char>, value: Tree) -> Tree {
        match self {
            Tree::Object(members) => Tree::Object(assoc::put(members, key, value)),
            _ => Tree::Object(seq![(key, value)]),
        }
    }

    /// The elements of an array.
    pub open spec fn items(self) -> Option<Seq<Tree>> {
        match self {
            Tree::Array(items) => Some(items),
            _ => None,
        }
    }
}

/// Two numbers are equal where they print alike, and zero equals its negative.
pub open spec fn same_number(a: Seq<char>, b: Seq<char>) -> bool {
    a == b || ((a == "0.0"@ || a == "-0.0"@) && (b == "0.0"@ || b == "-0.0"@))
}

/// Whether two values are equal. The order in which an object holds its members
/// does not count.
pub open spec fn same_tree(a: Tree, b: Tree) -> bool
    decreases a,
{
    match (a, b) {
        (Tree::Null, Tree::Null) => true,
        (Tree::Bool(x), Tree::Bool(y)) => x == y,
        (Tree::Number(x), Tree::Number(y)) => same_number(x, y),
        (Tree::Text(x), Tree::Text(y)) => x == y,
        (Tree::Array(x), Tree::Array(y)) => {
            &&& x.len() == y.len()
            &&& forall|i: int| 0 <= i < x.len() ==> same_tree(#[trigger] x[i], y[i])
        },
        (Tree::Object(x), Tree::Object(y)) => {
            &&& x.len() == y.len()
            &&& forall|i: int|
                0 <= i < x.len() ==> match assoc::lookup(y, (#[trigger] x[i]).0) {
                    Some(other) => same_tree(x[i].1, other),
                    None => false,
                }
        },
        _ => false,
    }
}

/// A member that was set is found, and the other members stay as they were.
pub proof fn law_set_members_are_found(tree: Tree, key: Seq<char>, value: Tree)
    requires
        tree.takes_members(),
    ensures
        tree.with(key, value) is Object,
        tree.with(key, value).get(key) == Some(value),
        forall|other: Seq<char>|
            other != key ==> #[trigger] tree.with(key, value).get(other) == tree.get(other),
{
    let members = match tree {
        Tree::Object(members) => members,
        _ => Seq::empty(),
    };
    assoc::put_is_found(members, key, value);
    assoc::position_is_first(members, key);
    assert(tree is Null ==> assoc::put(members, key, value) =~= seq![(key, value)]);
    assert forall|other: Seq<char>| other != key implies #[trigger] tree.with(key, value).get(other)
        == tree.get(other) by {
        assert(assoc::lookup(assoc::put(members, key, value), other) == assoc::lookup(
            members,
            other,
        ));
        if tree is Null {
            assert(assoc::position(members, other) == 0);
        }
    }
}

impl Json {
    /// A copy of the value.
    pub fn copy(&self) -> (out: Json)
        ensures
            out@ == self@,
        decreases self,
    {
        broadcast use {tree_of_array, tree_of_object};

        match self {
            Json::Null => Json::Null,
            Json::Bool(b) => Json::Bool(*b),
            Json::Number(n) => Json::Number(copy_number(n)),
            Json::Text(s) => Json::Text(copy_of(s.as_str())),
            Json::Array(items) => {
                let mut out: Vec<Json> = Vec::new();
                let mut i: usize = 0;
                while i < items.len()
                    invariant
                        i <= items@.len(),
                        *self == Json::Array(*items),
                        trees(out@) == trees(items@).take(i as int),
                    decreases items@.len() - i,
                {
                    let ghost before = out@;
                    assert(decreases_to!(*self => self->Array_0));
                    assert(decreases_to!(self->Array_0 => self->Array_0@));
                    assert(decreases_to!(self->Array_0@ => self->Array_0@[i as int]));
                    let child = items[i].copy();
                    out.push(child);
                    assert(trees(out@) =~= trees(before).push(child@));
                    assert(trees(out@) =~= trees(items@).take(i + 1));
                    i += 1;
                }
                assert(trees(out@) =~= trees(items@));
                Json::Array(out)
            },
            Json::Object(members) => {
                let list = members.as_list();
                let mut out: Vec<(String, Json)> = Vec::new();
                let mut i: usize = 0;
                while i < list.len()
                    invariant
                        i <= list@.len(),
                        *self == Json::Object(*members),
                        list@ == members.items(),
                        assoc::entries(out@) == assoc::entries(list@).take(i as int),
                    decreases list@.len() - i,
                {
                    let ghost before = out@;
                    let name = copy_of(list[i].0.as_str());
                    assert(decreases_to!(*self => self->Object_0));
                    assert(decreases_to!(self->Object_0 => self->Object_0.list));
                    assert(decreases_to!(self->Object_0.list => self->Object_0.list@));
                    assert(decreases_to!(self->Object_0.list@ => self->Object_0.list@[i as int]));
                    assert(decreases_to!(self->Object_0.list@[i as int]
                        => self->Object_0.list@[i as int].1));
                    let child = list[i].1.copy();
                    out.push((name, child));
                    assert(assoc::entries(out@) =~= assoc::entries(before).push((name@, child@)));
                    assert(assoc::entries(out@) =~= assoc::entries(list@).take(i + 1));
                    i += 1;
                }
                assert(assoc::entries(out@) =~= assoc::entries(list@));
                proof {
                    use_type_invariant(members);
                }
                object(out)
            },
        }
    }

    /// The member named `key`, where the value is an object that has one.
    pub fn get(&self, key: &str) -> (member: Option<&Json>)
        ensures
            tree_option(member) == self@.get(key@),
    {
        broadcast use {tree_of_array, tree_of_object};

        match self {
            Json::Object(members) => {
                let list = members.as_list();
                let at = assoc::find(list, key);
                if at < list.len() {
                    Some(&list[at].1)
                } else {
                    None
                }
            },
            _ => None,
        }
    }

    /// The text of a string.
    pub fn as_str(&self) -> (text: Option<&str>)
        ensures
            text::str_option(text) == self@.text(),
    {
        match self {
            Json::Text(s) => Some(s.as_str()),
            _ => None,
        }
    }

    /// The elements of an array.
    pub fn as_array(&self) -> (items: Option<&Vec<Json>>)
        ensures
            match items {
                Some(list) => self@.items() == Some(trees(list@)),
                None => self@.items() is None,
            },
    {
        broadcast use {tree_of_array, tree_of_object};

        match self {
            Json::Array(items) => Some(items),
            _ => None,
        }
    }

    /// Sets the member `key`, on an object or on null, which becomes one.
    pub fn set(&mut self, key: &str, value: Json)
        requires
            old(self)@.takes_members(),
        ensures
            final(self)@ == old(self)@.with(key@, value@),
    {
        broadcast use {tree_of_array, tree_of_object};

        let mut taken = Json::Null;
        std::mem::swap(&mut taken, self);
        let ghost whole = taken@;
        let mut members: Members = match taken {
            Json::Object(members) => members,
            _ => Members::new(),
        };
        let ghost before = assoc::entries(members.items());
        let ghost member = (key@, value@);
        assert(whole is Null ==> before =~= Seq::empty());
        members.insert(key, value);
        *self = Json::Object(members);
        assert(whole is Null ==> assoc::put(before, key@, value@) =~= seq![member]);
    }
}

/// The tree of a value that may be missing.
pub open spec fn tree_option(json: Option<&Json>) -> Option<Tree> {
    match json {
        Some(j) => Some(j@),
        None => None,
    }
}

/// One level of a `serde_json::Value`.
enum Level {
    Null,
    Bool(bool),
    Number(serde_json::Number),
    Text(String),
    Array(Vec<serde_json::Value>),
    Object(Vec<(String, serde_json::Value)>),
}

/// The elements of a level.
spec fn level_items(items: Seq<serde_json::Value>) -> Seq<Tree> {
    items.map_values(|v: serde_json::Value| value_tree(v))
}

/// The members of a level.
spec fn level_members(members: Seq<(String, serde_json::Value)>) -> Seq<(Seq<char>, Tree)> {
    members.map_values(|m: (String, serde_json::Value)| (m.0@, value_tree(m.1)))
}

/// The tree of a value of which one level is taken apart.
spec fn level_tree(level: Level) -> Tree {
    match level {
        Level::Null => Tree::Null,
        Level::Bool(b) => Tree::Bool(b),
        Level::Number(n) => Tree::Number(number_text(n)),
        Level::Text(s) => Tree::Text(s@),
        Level::Array(items) => Tree::Array(level_items(items@)),
        Level::Object(members) => Tree::Object(level_members(members@)),
    }
}

/// `serde_json::from_str`: the result is a function of the text, a value or an
/// error.
#[verifier::external_body]
fn parse_value(text: &str) -> (parsed: Result<serde_json::Value, serde_json::Error>)
    ensures
        match parsed {
            Ok(value) => parsed_tree(text@) == Some(value_tree(value)),
            Err(_) => parsed_tree(text@) is None,
        },
{
    serde_json::from_str(text)
}

/// Tells the variants of `serde_json::Value` apart: what the parts hold is what
/// the value held. An object holds each name once.
#[verifier::external_body]
fn open_value(value: serde_json::Value) -> (level: Level)
    ensures
        level_tree(level) == value_tree(value),
        level matches Level::Object(members) ==> assoc::distinct(level_members(members@)),
{
    match value {
        serde_json::Value::Null => Level::Null,
        serde_json::Value::Bool(b) => Level::Bool(b),
        serde_json::Value::Number(n) => Level::Number(n),
        serde_json::Value::String(s) => Level::Text(s),
        serde_json::Value::Array(items) => Level::Array(items),
        serde_json::Value::Object(members) => Level::Object(members.into_iter().collect()),
    }
}

/// Makes a `serde_json::Value` of its variant's parts: it holds what they hold,
/// the members of an object in their order, which `preserve_order` keeps.
#[verifier::external_body]
fn close_value(level: Level) -> (value: serde_json::Value)
    requires
        level matches Level::Object(members) ==> assoc::distinct(level_members(members@)),
    ensures
        value_tree(value) == level_tree(level),
{
    match level {
        Level::Null => serde_json::Value::Null,
        Level::Bool(b) => serde_json::Value::Bool(b),
        Level::Number(n) => serde_json::Value::Number(n),
        Level::Text(s) => serde_json::Value::String(s),
        Level::Array(items) => serde_json::Value::Array(items),
        Level::Object(members) => serde_json::Value::Object(members.into_iter().collect()),
    }
}

/// `serde_json::Value`'s `to_string`: compact JSON text.
#[verifier::external_body]
fn print_value(value: &serde_json::Value) -> (out: String)
    ensures
        out@ == printed(value_tree(*value)),
{
    value.to_string()
}

/// `serde_json::Value`'s `==`: the order in which an object holds its members
/// does not count.
#[verifier::external_body]
fn equal_values(a: &serde_json::Value, b: &serde_json::Value) -> (same: bool)
    ensures
        same == same_tree(value_tree(*a), value_tree(*b)),
{
    a == b
}

fn from_value(value: serde_json::Value) -> (json: Json)
    ensures
        json@ == value_tree(value),
    decreases value_tree(value),
{
    broadcast use {tree_of_array, tree_of_object};

    match open_value(value) {
        Level::Null => Json::Null,
        Level::Bool(b) => Json::Bool(b),
        Level::Number(n) => Json::Number(n),
        Level::Text(s) => Json::Text(s),
        Level::Array(items) => {
            let mut out: Vec<Json> = Vec::new();
            let ghost values = items@;
            let ghost children = value_tree(value)->Array_0;
            for item in it: items
                invariant
                    it.seq() == values,
                    value_tree(value) == Tree::Array(children),
                    children == level_items(values),
                    trees(out@) == children.take(it.index() as int),
            {
                let ghost whole = value_tree(value);
                assert(children[it.index() as int] == value_tree(item));
                assert(decreases_to!(whole => whole->Array_0));
                assert(decreases_to!(whole->Array_0 => whole->Array_0[it.index() as int]));
                let ghost before = out@;
                let child = from_value(item);
                out.push(child);
                assert(out@ == before.push(child));
                assert(trees(out@) =~= trees(before).push(child@));
                assert(trees(out@) =~= children.take(it.index() + 1));
            }
            assert(trees(out@) =~= children);
            Json::Array(out)
        },
        Level::Object(members) => {
            let mut out: Vec<(String, Json)> = Vec::new();
            let ghost values = members@;
            let ghost children = value_tree(value)->Object_0;
            for member in it: members
                invariant
                    it.seq() == values,
                    value_tree(value) == Tree::Object(children),
                    children == level_members(values),
                    assoc::entries(out@) == children.take(it.index() as int),
            {
                assert(children[it.index() as int] == (member.0@, value_tree(member.1)));
                let ghost whole = value_tree(value);
                assert(decreases_to!(whole => whole->Object_0));
                assert(decreases_to!(whole->Object_0 => whole->Object_0[it.index() as int]));
                let ghost own = whole->Object_0[it.index() as int];
                assert(decreases_to!(own => own.1));
                let ghost before = out@;
                let (name, inner) = member;
                let child = from_value(inner);
                out.push((name, child));
                assert(out@ == before.push((name, child)));
                assert(assoc::entries(out@) =~= assoc::entries(before).push((name@, child@)));
                assert(assoc::entries(out@) =~= children.take(it.index() + 1));
            }
            assert(assoc::entries(out@) =~= children);
            object(out)
        },
    }
}

/// Why a text is no JSON value: `serde_json` refused it.
#[derive(Debug, Clone, Copy, PartialEq, Eq, Structural)]
pub struct NotJson;

/// Parses JSON text.
pub fn parse_json(text: &str) -> (parsed: Result<Json, NotJson>)
    ensures
        match parsed {
            Ok(json) => parsed_tree(text@) == Some(json@),
            Err(_) => parsed_tree(text@) is None,
        },
{
    match parse_value(text) {
        Ok(value) => Ok(from_value(value)),
        Err(_) => Err(NotJson),
    }
}

/// The lower case hexadecimal digit of a number below sixteen.
pub open spec fn hex_digit(n: nat) -> char {
    if n < 10 {
        ('0' as nat + n) as char
    } else {
        ('a' as nat + n - 10) as char
    }
}

/// A character inside a quoted string: quotes, backslashes and control
/// characters are escaped.
pub open spec fn escaped(c: char) -> Seq<char> {
    if c == '"' || c == '\\' {
        seq!['\\', c]
    } else if c == '\u{8}' {
        seq!['\\', 'b']
    } else if c == '\t' {
        seq!['\\', 't']
    } else if c == '\n' {
        seq!['\\', 'n']
    } else if c == '\u{c}' {
        seq!['\\', 'f']
    } else if c == '\r' {
        seq!['\\', 'r']
    } else if c >= ' ' {
        seq![c]
    } else {
        seq!['\\', 'u', '0', '0', hex_digit(c as nat / 16), hex_digit(c as nat % 16)]
    }
}

/// The inside of a quoted string.
pub open spec fn all_escaped(text: Seq<char>) -> Seq<char>
    decreases text.len(),
{
    if text.len() == 0 {
        Seq::empty()
    } else {
        all_escaped(text.drop_last()) + escaped(text.last())
    }
}

/// A string, quoted and escaped.
pub open spec fn quoted(text: Seq<char>) -> Seq<char> {
    "\""@ + all_escaped(text) + "\""@
}

/// A value as compact JSON text.
pub open spec fn printed(tree: Tree) -> Seq<char>
    decreases tree,
{
    match tree {
        Tree::Null => "null"@,
        Tree::Bool(b) => if b {
            "true"@
        } else {
            "false"@
        },
        Tree::Number(n) => n,
        Tree::Text(s) => quoted(s),
        Tree::Array(items) => "["@ + printed_items(items) + "]"@,
        Tree::Object(members) => "{"@ + printed_members(members) + "}"@,
    }
}

/// Values with commas between them.
pub open spec fn printed_items(items: Seq<Tree>) -> Seq<char>
    decreases items,
{
    if items.len() == 0 {
        Seq::empty()
    } else if items.len() == 1 {
        printed(items[0])
    } else {
        printed_items(items.subrange(0, items.len() - 1)) + ","@ + printed(items[items.len() - 1])
    }
}

/// Members with commas between them.
pub open spec fn printed_members(members: Seq<(Seq<char>, Tree)>) -> Seq<char>
    decreases members,
{
    if members.len() == 0 {
        Seq::empty()
    } else if members.len() == 1 {
        quoted(members[0].0) + ":"@ + printed(members[0].1)
    } else {
        let last = members[members.len() - 1];
        printed_members(members.subrange(0, members.len() - 1)) + ","@ + (quoted(last.0) + ":"@
            + printed(members[members.len() - 1].1))
    }
}

impl Json {
    /// The value as one of `serde_json`.
    fn to_value(&self) -> (value: serde_json::Value)
        ensures
            value_tree(value) == self@,
        decreases self,
    {
        broadcast use {tree_of_array, tree_of_object};

        match self {
            Json::Null => close_value(Level::Null),
            Json::Bool(b) => close_value(Level::Bool(*b)),
            Json::Number(n) => close_value(Level::Number(copy_number(n))),
            Json::Text(s) => close_value(Level::Text(copy_of(s.as_str()))),
            Json::Array(items) => {
                let ghost all = trees(items@);
                let mut out: Vec<serde_json::Value> = Vec::new();
                let mut i: usize = 0;
                while i < items.len()
                    invariant
                        i <= items@.len(),
                        *self == Json::Array(*items),
                        all == trees(items@),
                        level_items(out@) == all.take(i as int),
                    decreases items@.len() - i,
                {
                    let ghost before = out@;
                    assert(decreases_to!(*self => self->Array_0));
                    assert(decreases_to!(self->Array_0 => self->Array_0@));
                    assert(decreases_to!(self->Array_0@ => self->Array_0@[i as int]));
                    let child = items[i].to_value();
                    out.push(child);
                    assert(level_items(out@) =~= level_items(before).push(value_tree(child)));
                    assert(all[i as int] == value_tree(child));
                    assert(level_items(out@) =~= all.take(i + 1));
                    i += 1;
                }
                assert(all.take(i as int) =~= all);
                close_value(Level::Array(out))
            },
            Json::Object(members) => {
                let list = members.as_list();
                let ghost all = assoc::entries(list@);
                let mut out: Vec<(String, serde_json::Value)> = Vec::new();
                let mut i: usize = 0;
                assert(level_members(out@) =~= all.take(0));
                while i < list.len()
                    invariant
                        i <= list@.len(),
                        *self == Json::Object(*members),
                        list@ == members.items(),
                        all == assoc::entries(list@),
                        level_members(out@) == all.take(i as int),
                    decreases list@.len() - i,
                {
                    let ghost before = out@;
                    let name = copy_of(list[i].0.as_str());
                    assert(decreases_to!(*self => self->Object_0));
                    assert(decreases_to!(self->Object_0 => self->Object_0.list));
                    assert(decreases_to!(self->Object_0.list => self->Object_0.list@));
                    assert(decreases_to!(self->Object_0.list@ => self->Object_0.list@[i as int]));
                    assert(decreases_to!(self->Object_0.list@[i as int]
                        => self->Object_0.list@[i as int].1));
                    let child = list[i].1.to_value();
                    out.push((name, child));
                    let ghost member = (name@, value_tree(child));
                    assert(level_members(out@) =~= level_members(before).push(member));
                    assert(all[i as int] == member);
                    assert(level_members(out@) =~= all.take(i + 1));
                    i += 1;
                }
                assert(all.take(i as int) =~= all);
                proof {
                    use_type_invariant(members);
                }
                close_value(Level::Object(out))
            },
        }
    }

    /// The value as compact JSON text.
    pub fn to_text(&self) -> (out: String)
        ensures
            out@ == printed(self@),
    {
        print_value(&self.to_value())
    }
}

/// Whether two values are equal.
pub fn same_json(a: &Json, b: &Json) -> (same: bool)
    ensures
        same == same_tree(a@, b@),
{
    equal_values(&a.to_value(), &b.to_value())
}

/// Plain values are equal where they are the same: texts by their characters,
/// numbers where they print alike. Values of different kinds never are.
pub proof fn law_plain_values_are_compared(a: Seq<char>, b: Seq<char>, x: bool, y: bool)
    ensures
        same_tree(Tree::Text(a), Tree::Text(b)) <==> a == b,
        same_tree(Tree::Bool(x), Tree::Bool(y)) <==> x == y,
        same_tree(Tree::Null, Tree::Null),
        same_tree(Tree::Number(a), Tree::Number(a)),
        same_tree(Tree::Number(a), Tree::Number(b)) && a != "0.0"@ && a != "-0.0"@ ==> a == b,
        !same_tree(Tree::Text(a), Tree::Number(b)),
        !same_tree(Tree::Number(a), Tree::Text(b)),
        !same_tree(Tree::Null, Tree::Text(b)),
        !same_tree(Tree::Null, Tree::Number(b)),
{
}

/// A list of values is seen value by value, and a value that may be missing is
/// seen where it is there.
pub proof fn law_lists_are_seen_value_by_value(items: Seq<Json>, i: int, value: &Json)
    requires
        0 <= i < items.len(),
    ensures
        trees(items).len() == items.len(),
        trees(items)[i] == items[i]@,
        tree_option(Some(value)) == Some(value@),
        tree_option(None) is None,
{
}

} // verus!
