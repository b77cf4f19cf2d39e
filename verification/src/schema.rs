//! What a document reads of the schema it is bound to: the zones that partition it, and
//! how marks of each name combine.

use crate::bytes::{byte_strings, bytes_eq};
use vstd::prelude::*;

verus! {

/// How the marks of one name that cover a character combine.
#[derive(Clone, Copy, PartialEq, Eq, Debug, Structural)]
pub enum MarkFlavor {
    /// The latest decides whether the mark is on.
    Boolean,
    /// The latest decides the value.
    Value,
    /// Every instance stands on its own.
    Object,
}

/// A zone: the subtree under a path, replicated as a stream of its own.
#[derive(PartialEq, Eq, Debug)]
pub struct Zone {
    pub path: Vec<Vec<u8>>,
    pub id: u32,
}

/// A zone, by value.
pub struct ZoneV {
    pub path: Seq<Seq<u8>>,
    pub id: u32,
}

impl View for Zone {
    type V = ZoneV;

    open spec fn view(&self) -> ZoneV {
        ZoneV { path: byte_strings(self.path@), id: self.id }
    }
}

/// A mark name and its flavor.
#[derive(PartialEq, Eq, Debug)]
pub struct MarkDef {
    pub name: Vec<u8>,
    pub flavor: MarkFlavor,
}

/// A mark name and its flavor, by value.
pub struct MarkDefV {
    pub name: Seq<u8>,
    pub flavor: MarkFlavor,
}

impl View for MarkDef {
    type V = MarkDefV;

    open spec fn view(&self) -> MarkDefV {
        MarkDefV { name: self.name@, flavor: self.flavor }
    }
}

/// The declared zones and marks.
#[derive(PartialEq, Eq, Debug)]
pub struct Schema {
    pub zones: Vec<Zone>,
    pub marks: Vec<MarkDef>,
}

/// The declared zones and marks, by value.
pub struct SchemaV {
    pub zones: Seq<ZoneV>,
    pub marks: Seq<MarkDefV>,
}

impl View for Schema {
    type V = SchemaV;

    open spec fn view(&self) -> SchemaV {
        SchemaV {
            zones: self.zones@.map_values(|z: Zone| z@),
            marks: self.marks@.map_values(|m: MarkDef| m@),
        }
    }
}

/// Whether `a` is the start of `b`.
pub open spec fn path_prefix(a: Seq<Seq<u8>>, b: Seq<Seq<u8>>) -> bool {
    a.len() <= b.len() && b.take(a.len() as int) == a
}

/// The declared zone that governs a path: the one whose own path is the longest start of
/// it, the earliest declared of equals.
pub open spec fn zone_of(zones: Seq<ZoneV>, path: Seq<Seq<u8>>) -> Option<ZoneV>
    decreases zones.len(),
{
    if zones.len() == 0 {
        None
    } else {
        let best = zone_of(zones.drop_last(), path);
        let z = zones.last();
        if !path_prefix(z.path, path) {
            best
        } else {
            match best {
                Some(b) if z.path.len() <= b.path.len() => best,
                _ => Some(z),
            }
        }
    }
}

impl SchemaV {
    /// The id of the zone that governs a path.
    pub open spec fn zone_id(self, path: Seq<Seq<u8>>) -> Option<u32> {
        match zone_of(self.zones, path) {
            Some(z) => Some(z.id),
            None => None,
        }
    }

    /// The flavor declared for a mark name.
    pub open spec fn flavor(self, name: Seq<u8>) -> Option<MarkFlavor> {
        flavor_in(self.marks, name)
    }
}

/// The flavor the first declaration of a name gives it.
pub open spec fn flavor_in(marks: Seq<MarkDefV>, name: Seq<u8>) -> Option<MarkFlavor>
    decreases marks.len(),
{
    if marks.len() == 0 {
        None
    } else if marks[0].name == name {
        Some(marks[0].flavor)
    } else {
        flavor_in(marks.skip(1), name)
    }
}

/// Whether `a` is the start of `b`.
fn is_path_prefix(a: &Vec<Vec<u8>>, b: &Vec<Vec<u8>>) -> (r: bool)
    ensures
        r == path_prefix(byte_strings(a@), byte_strings(b@)),
{
    let ghost x = byte_strings(a@);
    let ghost y = byte_strings(b@);
    if a.len() > b.len() {
        return false;
    }
    let mut i: usize = 0;
    while i < a.len()
        invariant
            i <= a@.len() <= b@.len(),
            x == byte_strings(a@),
            y == byte_strings(b@),
            forall|j: int| 0 <= j < i ==> #[trigger] x[j] == y[j],
        decreases a@.len() - i,
    {
        if !bytes_eq(a[i].as_slice(), b[i].as_slice()) {
            proof {
                assert(x[i as int] != y[i as int]);
                assert(y.take(x.len() as int)[i as int] == y[i as int]);
            }
            return false;
        }
        proof {
            assert(x[i as int] == a@[i as int]@ && y[i as int] == b@[i as int]@);
        }
        i += 1;
    }
    proof {
        assert(y.take(x.len() as int) =~= x);
    }
    true
}

impl Schema {
    /// Whether the schema declares no zones.
    pub fn has_no_zones(&self) -> (b: bool)
        ensures
            b == (self@.zones.len() == 0),
    {
        self.zones.len() == 0
    }

    /// The id of the zone that governs a path.
    pub fn zone_id_of(&self, path: &Vec<Vec<u8>>) -> (r: Option<u32>)
        ensures
            r == self@.zone_id(byte_strings(path@)),
    {
        let ghost zs = self@.zones;
        let ghost p = byte_strings(path@);
        let mut best: Option<usize> = None;
        let mut i: usize = 0;
        proof {
            assert(zs.take(0) =~= Seq::empty());
        }
        while i < self.zones.len()
            invariant
                zs == self@.zones,
                p == byte_strings(path@),
                i <= self.zones@.len(),
                match best {
                    Some(b) => b < i && zone_of(zs.take(i as int), p) == Some(self.zones@[b as int]@),
                    None => zone_of(zs.take(i as int), p) is None,
                },
            decreases self.zones@.len() - i,
        {
            proof {
                assert(zs.take(i + 1).drop_last() =~= zs.take(i as int));
                assert(zs.take(i + 1).last() == self.zones@[i as int]@);
            }
            if is_path_prefix(&self.zones[i].path, path) {
                let longer = match best {
                    Some(b) => self.zones[i].path.len() > self.zones[b].path.len(),
                    None => true,
                };
                if longer {
                    best = Some(i);
                }
            }
            i += 1;
        }
        proof {
            assert(zs.take(i as int) =~= zs);
        }
        match best {
            Some(b) => Some(self.zones[b].id),
            None => None,
        }
    }

    /// The flavor declared for a mark name.
    pub fn mark(&self, name: &[u8]) -> (r: Option<MarkFlavor>)
        ensures
            r == self@.flavor(name@),
    {
        let ghost ms = self@.marks;
        let mut i: usize = 0;
        proof {
            assert(ms.skip(0) =~= ms);
        }
        while i < self.marks.len()
            invariant
                ms == self@.marks,
                i <= self.marks@.len(),
                flavor_in(ms, name@) == flavor_in(ms.skip(i as int), name@),
            decreases self.marks@.len() - i,
        {
            proof {
                assert(ms.skip(i as int)[0] == self.marks@[i as int]@);
                assert(ms.skip(i as int).skip(1) =~= ms.skip(i + 1));
            }
            if bytes_eq(self.marks[i].name.as_slice(), name) {
                return Some(self.marks[i].flavor);
            }
            i += 1;
        }
        None
    }
}

} // verus!
