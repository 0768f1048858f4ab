//! The plain per-object data types of the world: room coordinates, in-room
//! positions, stable object identifiers, and the auxiliary attached
//! attributes (decay tick, owner, hit points, body parts) together with the
//! store capability contract.

use vstd::prelude::*;

use crate::codec::{encode_id, encode_room, hex_rep, room_label};

verus! {

/// A room's coordinates in the infinite world grid.
#[derive(Debug, Clone, PartialEq, Eq, Hash)]
pub struct Room {
    pub x: i16,
    pub y: i16,
}

impl Room {
    /// A room at the given grid coordinates.
    pub fn new(x: i16, y: i16) -> (r: Room)
        ensures
            r.x == x,
            r.y == y,
    {
        Room { x, y }
    }

    /// The canonical label of this room, e.g. `"E3S0"` for `(3, -1)`.
    pub fn to_string(&self) -> (r: String)
        ensures
            r@ == room_label(self.x as int, self.y as int),
    {
        encode_room(self.x, self.y)
    }
}

/// The unique, stable identifier of a game object: twelve opaque bytes,
/// generated at random when the object is created and immutable for the
/// object's lifetime.
#[derive(Debug, Clone, Copy, PartialEq, Eq, Hash)]
pub struct Id([u8; 12]);

impl View for Id {
    type V = Seq<u8>;

    closed spec fn view(&self) -> Seq<u8> {
        self.0@
    }
}

/// Relies on `rand::random`: a uniformly random twelve-byte value; nothing
/// is promised of its contents.
#[verifier::external_body]
fn random_bytes() -> (r: [u8; 12]) {
    rand::random()
}

impl Id {
    /// An identifier with exactly the given bytes, e.g. one read back from
    /// persisted state.
    pub fn new(bytes: [u8; 12]) -> (r: Id)
        ensures
            r@ == bytes@,
    {
        Id(bytes)
    }

    /// Whether two identifiers hold the same twelve bytes.
    pub fn equals(&self, other: &Id) -> (r: bool)
        ensures
            r == (self@ == other@),
    {
        let mut i: usize = 0;
        while i < 12
            invariant
                i <= 12,
                forall|j: int| 0 <= j < i ==> self@[j] == other@[j],
            decreases 12 - i,
        {
            if self.0[i] != other.0[i] {
                return false;
            }
            i = i + 1;
        }
        proof {
            assert(self@ =~= other@);
        }
        true
    }

    /// The canonical textual form: exactly 24 lowercase hexadecimal
    /// characters, two per byte, most significant nibble first.
    pub fn to_string(&self) -> (r: String)
        ensures
            r@ == hex_rep(self@),
            r@.len() == 24,
    {
        encode_id(&self.0)
    }
}

impl Default for Id {
    /// A freshly generated random identifier. Nothing can be promised of
    /// which bytes were drawn, but whatever came back, the identifier is a
    /// fixed-length twelve-byte value.
    fn default() -> (r: Id)
        ensures
            r@.len() == 12,
    {
        Id(random_bytes())
    }
}

/// An object's exact location in the game world: two in-room offsets plus
/// the coordinates of its room. Keeping the offsets inside the room's tile
/// bounds is the world-geometry collaborator's duty, not this type's.
#[derive(Debug, Clone, PartialEq, Eq, Hash)]
pub struct Position {
    pub x: u8,
    pub y: u8,
    pub room: Room,
}

impl Position {
    /// A position at offset `(x, y)` inside `room`.
    pub fn new(x: u8, y: u8, room: Room) -> (r: Position)
        ensures
            r.x == x,
            r.y == y,
            r.room == room,
    {
        Position { x, y, room }
    }
}

/// The game tick at which the carrying object decays.
#[derive(Debug, Clone, Copy, Hash)]
pub struct DecayTimer(pub u64);

/// The numeric user id of the carrying object's owner.
#[derive(Debug, Clone, Copy, PartialEq, Eq, Hash, Structural)]
pub struct OwnerId(pub u32);

/// The carrying object's current and maximum health.
#[derive(Debug, Clone, Copy)]
pub struct Hits {
    pub max_hits: u32,
    pub hits: u32,
}

impl Default for Hits {
    /// Zero current and maximum health.
    fn default() -> (r: Hits)
        ensures
            r.max_hits == 0,
            r.hits == 0,
    {
        Hits { max_hits: 0, hits: 0 }
    }
}

/// The capability contract any resource container must satisfy. It is an
/// external collaborator interface: this core consumes it but implements no
/// container of its own. A deposit or withdrawal succeeds or fails as a
/// whole; there is no partial transfer.
pub trait Store {
    /// Total capacity of the whole store, or of one resource type.
    fn get_capacity(&self, resource: Option<ResourceType>) -> u32;

    /// Free capacity of the whole store, or of one resource type.
    fn get_free_capacity(&self, resource: Option<ResourceType>) -> u32;

    /// Used capacity of the whole store, or of one resource type.
    fn get_used_capacity(&self, resource: Option<ResourceType>) -> u32;

    /// Whether the store accepts the given resource type at all.
    fn is_vaild(&self, resource: ResourceType) -> bool;

    /// Attempts to deposit the amount; reports whether it succeeded.
    fn try_store(&mut self, resource: ResourceType, amount: u32) -> bool;

    /// Attempts to withdraw the amount; reports whether it succeeded.
    fn try_withdraw(&mut self, resource: ResourceType, amount: u32) -> bool;
}

/// Creep body part types.
#[derive(Debug, Clone, Copy, PartialEq, Eq, Hash, Structural)]
#[non_exhaustive]
pub enum BodyPartType {
    Move,
    Work,
    Carry,
    Attack,
    RangedAttack,
    Heal,
    Claim,
    Tough,
}

/// Resource types.
#[derive(Debug, Clone, Copy, PartialEq, Eq, Hash, Structural)]
#[non_exhaustive]
pub enum ResourceType {
    Empty,
    Energy,
    Power,
    Hydrogen,
    Oxygen,
    Utrium,
    Lemergium,
    Keanium,
    Zynthium,
    Catalyst,
    Ghodium,
    Silicon,
    Metal,
    Biomass,
    Mist,
    Hydroxide,
    ZynthiumKeanite,
    UtriumLemergite,
    UtriumHydride,
    UtriumOxide,
    KeaniumHydride,
    KeaniumOxide,
    LemergiumHydride,
    LemergiumOxide,
    ZynthiumHydride,
    ZynthiumOxide,
    GhodiumHydride,
    GhodiumOxide,
    UtriumAcid,
    UtriumAlkalide,
    KeaniumAcid,
    KeaniumAlkalide,
    LemergiumAcid,
    LemergiumAlkalide,
    ZynthiumAcid,
    ZynthiumAlkalide,
    GhodiumAcid,
    GhodiumAlkalide,
    CatalyzedUtriumAcid,
    CatalyzedUtriumAlkalide,
    CatalyzedKeaniumAcid,
    CatalyzedKeaniumAlkalide,
    CatalyzedLemergiumAcid,
    CatalyzedLemergiumAlkalide,
    CatalyzedZynthiumAcid,
    CatalyzedZynthiumAlkalide,
    CatalyzedGhodiumAcid,
    CatalyzedGhodiumAlkalide,
    Ops,
    UtriumBar,
    LemergiumBar,
    ZynthiumBar,
    KeaniumBar,
    GhodiumMelt,
    Oxidant,
    Reductant,
    Purifier,
    Battery,
    Composite,
    Crystal,
    Liquid,
    Wire,
    Switch,
    Transistor,
    Microchip,
    Circuit,
    Device,
    Cell,
    Phlegm,
    Tissue,
    Muscle,
    Organoid,
    Organism,
    Alloy,
    Tube,
    Fixtures,
    Frame,
    Hydraulics,
    Machine,
    Condensate,
    Concentrate,
    Extract,
    Spirit,
    Emanation,
    Essence,
    Score,
    SymbolAleph,
    SymbolBeth,
    SymbolGimmel,
    SymbolDaleth,
    SymbolHe,
    SymbolWaw,
    SymbolZayin,
    SymbolHeth,
    SymbolTeth,
    SymbolYodh,
    SymbolKaph,
    SymbolLamedh,
    SymbolMem,
    SymbolNun,
    SymbolSamekh,
    SymbolAyin,
    SymbolPe,
    SymbolTsade,
    SymbolQoph,
    SymbolRes,
    SymbolSin,
    SymbolTaw,
    Thorium,
}

impl Default for ResourceType {
    /// The empty resource.
    fn default() -> (r: ResourceType)
        ensures
            r == ResourceType::Empty,
    {
        ResourceType::Empty
    }
}

/// The outside bounded vector that backs a creep's body-part list.
#[verifier::external_type_specification]
#[verifier::external_body]
#[verifier::reject_recursive_types(T)]
pub struct ExArrayVec<T, const CAP: usize>(arrayvec::ArrayVec<T, CAP>);

/// Relies on `arrayvec::ArrayVec::clone`: a deep copy; nothing further is
/// claimed of the copy's contents.
pub assume_specification<T, const CAP: usize>[ <arrayvec::ArrayVec<T, CAP> as Clone>::clone ](
    v: &arrayvec::ArrayVec<T, CAP>,
) -> arrayvec::ArrayVec<T, CAP>
    where
        T: Clone,
;

/// The pairs a body-part list of the outside bounded vector holds, in order.
pub uninterp spec fn body_parts_of(
    v: arrayvec::ArrayVec<(BodyPartType, ResourceType), 50>,
) -> Seq<(BodyPartType, ResourceType)>;

/// Relies on `arrayvec::ArrayVec::new`: a freshly made vector holds nothing.
#[verifier::external_body]
fn parts_new() -> (r: arrayvec::ArrayVec<(BodyPartType, ResourceType), 50>)
    ensures
        body_parts_of(r) == Seq::<(BodyPartType, ResourceType)>::empty(),
{
    arrayvec::ArrayVec::new()
}

/// Relies on `arrayvec::ArrayVec::push`: appends one element at the end; it
/// panics when the vector is full, which the precondition rules out.
#[verifier::external_body]
fn parts_push(
    v: &mut arrayvec::ArrayVec<(BodyPartType, ResourceType), 50>,
    part: (BodyPartType, ResourceType),
)
    requires
        body_parts_of(*old(v)).len() < 50,
    ensures
        body_parts_of(*final(v)) == body_parts_of(*old(v)).push(part),
{
    v.push(part);
}

/// Relies on `arrayvec::ArrayVec::len`: the number of elements held.
#[verifier::external_body]
fn parts_len(v: &arrayvec::ArrayVec<(BodyPartType, ResourceType), 50>) -> (r: usize)
    ensures
        r == body_parts_of(*v).len(),
{
    v.len()
}

/// Relies on `arrayvec::ArrayVec::as_slice`: the held elements, in order.
#[verifier::external_body]
fn parts_as_slice(v: &arrayvec::ArrayVec<(BodyPartType, ResourceType), 50>) -> (r: &[(
    BodyPartType,
    ResourceType,
)])
    ensures
        r@ == body_parts_of(*v),
{
    v.as_slice()
}

/// A creep's build: an ordered list of up to 50 (part-type, resource-type)
/// pairs, backed by a fixed-capacity vector.
#[derive(Debug, Clone)]
pub struct BodyParts(arrayvec::ArrayVec<(BodyPartType, ResourceType), 50>);

impl View for BodyParts {
    type V = Seq<(BodyPartType, ResourceType)>;

    closed spec fn view(&self) -> Seq<(BodyPartType, ResourceType)> {
        body_parts_of(self.0)
    }
}

impl BodyParts {
    /// An empty body-part list.
    pub fn new() -> (r: BodyParts)
        ensures
            r@ == Seq::<(BodyPartType, ResourceType)>::empty(),
    {
        BodyParts(parts_new())
    }

    /// The number of parts in the list.
    pub fn len(&self) -> (r: usize)
        ensures
            r == self@.len(),
    {
        parts_len(&self.0)
    }

    /// Appends one part, unless the list already holds the full 50; reports
    /// whether the part was taken.
    pub fn try_push(&mut self, part: BodyPartType, resource: ResourceType) -> (ok: bool)
        ensures
            old(self)@.len() < 50 ==> ok && final(self)@ == old(self)@.push((part, resource)),
            old(self)@.len() >= 50 ==> !ok && final(self)@ == old(self)@,
    {
        let n: usize = parts_len(&self.0);
        if n < 50 {
            parts_push(&mut self.0, (part, resource));
            true
        } else {
            false
        }
    }

    /// The part at index `i`, or `None` past the end.
    pub fn get(&self, i: usize) -> (r: Option<(BodyPartType, ResourceType)>)
        ensures
            i < self@.len() ==> r == Some(self@[i as int]),
            i >= self@.len() ==> r is None,
    {
        let s = parts_as_slice(&self.0);
        if i < s.len() {
            Some(s[i])
        } else {
            None
        }
    }
}

} // verus!
