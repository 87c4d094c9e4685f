//! The scope in which a client gathers the facts of one batch.

use vstd::prelude::*;
use crate::fact::{ObjectId, Point, Ring, Say, Sayer, Target, Writable};
use crate::names::{is_numbered, unique_name};

verus! {

/// WriteScope allows a function to write facts into the database.
pub struct WriteScope {
    pub says: Vec<Say>,
}

/// The fact that the unit sayer states at the unit point: `object` has
/// `target` at `ring`.
pub open spec fn property_say(object: ObjectId, ring: Ring, target: Target) -> Say {
    Say { sayer: Sayer::Unit, object, ring, point: Point::Unit, target: Some(target) }
}

/// The facts that give `object` each of `properties`, in their order.
pub open spec fn property_says(object: ObjectId, properties: Seq<(&Ring, Target)>) -> Seq<Say> {
    Seq::new(properties.len(), |i: int| property_say(object, *properties[i].0, properties[i].1))
}

impl WriteScope {
    /// A scope without facts.
    pub fn new() -> (scope: WriteScope)
        ensures
            scope.says@ == Seq::<Say>::empty(),
    {
        WriteScope { says: Vec::new() }
    }

    /// The name of a new object: `prefix` and a number drawn at random.
    pub fn new_object_id(&self, prefix: &str) -> (id: ObjectId)
        ensures
            id is String,
            is_numbered(id->String_0@, prefix@),
    {
        ObjectId::String(unique_name(prefix))
    }

    /// Adds the facts of `writable`, after those that the scope holds: the
    /// scope then holds its earlier facts and, after them, the facts that
    /// `to_says` gave for `writable`, in their order.
    pub fn writable<W: Writable>(&mut self, writable: &W)
        ensures
            exists|says: Vec<Say>| #[trigger]
                call_ensures(W::to_says, (writable,), says) && final(self).says@ == old(
                    self,
                ).says@ + says@,
            old(self).says@.len() <= final(self).says@.len(),
            final(self).says@.subrange(0, old(self).says@.len() as int) == old(self).says@,
    {
        let says = writable.to_says();
        let ghost given = says;
        self.says(says);
        assert(call_ensures(W::to_says, (writable,), given) && self.says@ == old(self).says@
            + given@);
        assert(self.says@.subrange(0, old(self).says@.len() as int) =~= old(self).says@);
    }

    /// Adds, for each of `properties`, the fact that `object` has that
    /// target at that ring.
    pub fn write_object_properties(&mut self, object: &ObjectId, properties: Vec<(&Ring, Target)>)
        ensures
            final(self).says@ == old(self).says@ + property_says(*object, properties@),
    {
        let mut i: usize = 0;
        while i < properties.len()
            invariant
                i <= properties@.len(),
                self.says@ == old(self).says@ + property_says(*object, properties@).subrange(
                    0,
                    i as int,
                ),
            decreases properties@.len() - i,
        {
            let say = Say {
                sayer: Sayer::Unit,
                object: object.duplicate(),
                ring: properties[i].0.duplicate(),
                point: Point::Unit,
                target: Some(properties[i].1.duplicate()),
            };
            self.says.push(say);
            assert(self.says@ =~= old(self).says@ + property_says(*object, properties@).subrange(
                0,
                i + 1,
            ));
            i = i + 1;
        }
        assert(property_says(*object, properties@).subrange(0, properties@.len() as int)
            =~= property_says(*object, properties@));
    }

    /// Adds, for each of `attributes`, the fact that the unit object has
    /// that target at that ring.
    pub fn attributes(&mut self, attributes: Vec<(&Ring, Target)>)
        ensures
            final(self).says@ == old(self).says@ + property_says(ObjectId::Unit, attributes@),
    {
        self.write_object_properties(&ObjectId::Unit, attributes)
    }

    /// Adds the fact that the unit object has `arrow` at the unit ring.
    pub fn arrow(&mut self, arrow: Target)
        ensures
            final(self).says@ == old(self).says@.push(
                property_say(ObjectId::Unit, Ring::Unit, arrow),
            ),
    {
        let say = Say {
            sayer: Sayer::Unit,
            object: ObjectId::Unit,
            ring: Ring::Unit,
            point: Point::Unit,
            target: Some(arrow),
        };
        self.says.push(say);
    }

    /// Adds `says` after the facts that the scope holds.
    pub fn says(&mut self, says: Vec<Say>)
        ensures
            final(self).says@ == old(self).says@ + says@,
    {
        let mut says = says;
        self.says.append(&mut says);
    }
}

} // verus!
