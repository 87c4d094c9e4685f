//! The vocabulary of facts: who says what of which object.

use vstd::prelude::*;

verus! {

/// Who states a fact.
#[derive(Debug, Clone, PartialEq, Eq, Hash)]
pub enum Sayer {
    Unit,
    Named(String),
}

/// The object that a fact is about.
#[derive(Debug, Clone, PartialEq, Eq, Hash, PartialOrd, Ord)]
pub enum ObjectId {
    Unit,
    String(String),
}

/// The attribute that a fact gives a value to.
#[derive(Debug, Clone, PartialEq, Eq, Hash)]
pub enum Ring {
    Unit,
    Static { name: String, aspect: String },
}

/// The place at which a fact is stated.
#[derive(Debug, Clone, PartialEq, Eq, Hash)]
pub enum Point {
    Unit,
    Named(String),
}

/// The value of a fact.
#[derive(Debug, Clone, PartialEq, Eq)]
pub enum Target {
    Number(u64),
    Text(String),
}

/// One fact. A fact that is stored carries a target.
#[derive(Debug, Clone, PartialEq, Eq)]
pub struct Say {
    pub sayer: Sayer,
    pub object: ObjectId,
    pub ring: Ring,
    pub point: Point,
    pub target: Option<Target>,
}

/// The facts of one batch, in the order in which they are stored.
#[derive(Debug, Clone, PartialEq, Eq)]
pub struct Speech {
    pub says: Vec<Say>,
}

/// Something that can be written as facts.
pub trait Writable {
    fn to_says(&self) -> Vec<Say>;
}

impl Sayer {
    /// A copy with the same contents.
    pub fn duplicate(&self) -> (r: Sayer)
        ensures
            r == *self,
    {
        match self {
            Sayer::Unit => Sayer::Unit,
            Sayer::Named(s) => Sayer::Named(s.clone()),
        }
    }
}

impl ObjectId {
    /// The object with the given name.
    pub fn new(name: &str) -> (r: ObjectId)
        ensures
            r is String,
            r->String_0@ == name@,
    {
        ObjectId::String(name.to_owned())
    }

    /// A copy with the same contents.
    pub fn duplicate(&self) -> (r: ObjectId)
        ensures
            r == *self,
    {
        match self {
            ObjectId::Unit => ObjectId::Unit,
            ObjectId::String(s) => ObjectId::String(s.clone()),
        }
    }
}

impl Ring {
    /// The attribute `name` of the aspect `aspect`.
    pub fn new(name: &str, aspect: &str) -> (r: Ring)
        ensures
            r is Static,
            r->name@ == name@,
            r->aspect@ == aspect@,
    {
        Ring::Static { name: name.to_owned(), aspect: aspect.to_owned() }
    }

    /// A copy with the same contents.
    pub fn duplicate(&self) -> (r: Ring)
        ensures
            r == *self,
    {
        match self {
            Ring::Unit => Ring::Unit,
            Ring::Static { name, aspect } => Ring::Static {
                name: name.clone(),
                aspect: aspect.clone(),
            },
        }
    }
}

impl Point {
    /// A copy with the same contents.
    pub fn duplicate(&self) -> (r: Point)
        ensures
            r == *self,
    {
        match self {
            Point::Unit => Point::Unit,
            Point::Named(s) => Point::Named(s.clone()),
        }
    }
}

impl Target {
    /// The number that the target holds.
    pub fn as_number(&self) -> (n: u64)
        requires
            *self is Number,
        ensures
            n == self->Number_0,
    {
        match self {
            Target::Number(n) => *n,
            Target::Text(_) => 0,
        }
    }

    /// The text that the target holds.
    pub fn as_str(&self) -> (s: &str)
        requires
            *self is Text,
        ensures
            s@ == self->Text_0@,
    {
        match self {
            Target::Text(s) => s.as_str(),
            Target::Number(_) => "",
        }
    }

    /// A copy with the same contents.
    pub fn duplicate(&self) -> (r: Target)
        ensures
            r == *self,
    {
        match self {
            Target::Number(n) => Target::Number(*n),
            Target::Text(s) => Target::Text(s.clone()),
        }
    }
}

impl Say {
    /// A copy with the same contents.
    pub fn duplicate(&self) -> (r: Say)
        ensures
            r == *self,
    {
        let target = match &self.target {
            None => None,
            Some(t) => Some(t.duplicate()),
        };
        Say {
            sayer: self.sayer.duplicate(),
            object: self.object.duplicate(),
            ring: self.ring.duplicate(),
            point: self.point.duplicate(),
            target,
        }
    }
}

} // verus!
