//! Identifiers of records: UUIDs, record ids and (table, id) records.
use vstd::prelude::*;
use crate::names::Strand;

verus! {

/// The version number that a UUID carries in bits 76 to 79 of its
/// big-endian 128-bit value.
pub open spec fn uuid_version(bits: u128) -> u128 {
    (bits >> 76u128) & 0xfu128
}

/// Relies on uuid::Uuid::new_v4 and as_u128: new_v4 masks a random value so
/// that its version nibble reads 4, and as_u128 packs the bytes big-endian.
#[verifier::external_body]
fn random_v4_bits() -> (r: u128)
    ensures
        uuid_version(r) == 4,
{
    uuid::Uuid::new_v4().as_u128()
}

/// Relies on uuid::Uuid::now_v7 and as_u128: now_v7 encodes the time with the
/// version nibble 7, and as_u128 packs the bytes big-endian.
#[verifier::external_body]
fn time_v7_bits() -> (r: u128)
    ensures
        uuid_version(r) == 7,
{
    uuid::Uuid::now_v7().as_u128()
}

/// A UUID, held as its big-endian 128-bit value.
#[derive(Debug, Clone, Copy, PartialEq, Eq, Structural, PartialOrd, Ord, Hash)]
pub struct Uuid(pub u128);

impl Uuid {
    /// A new time-ordered (version 7) UUID.
    pub fn new() -> (r: Uuid)
        ensures
            uuid_version(r.0) == 7,
    {
        Uuid(time_v7_bits())
    }

    /// A new random (version 4) UUID.
    pub fn new_v4() -> (r: Uuid)
        ensures
            uuid_version(r.0) == 4,
    {
        Uuid(random_v4_bits())
    }

    /// A new time-ordered (version 7) UUID.
    pub fn new_v7() -> (r: Uuid)
        ensures
            uuid_version(r.0) == 7,
    {
        Uuid(time_v7_bits())
    }
}

/// The mathematical value of an [`Id`].
pub enum IdView {
    Number(int),
    String(Seq<char>),
    Uuid(u128),
}

/// The key of a record within its table.
#[derive(Debug, Clone, PartialEq, Eq, Hash, PartialOrd, Ord)]
pub enum Id {
    Number(i64),
    String(String),
    Uuid(Uuid),
}

impl Id {
    pub open spec fn view(&self) -> IdView {
        match self {
            Id::Number(n) => IdView::Number(*n as int),
            Id::String(s) => IdView::String(s@),
            Id::Uuid(u) => IdView::Uuid(u.0),
        }
    }

    /// A new id made of a time-ordered UUID.
    pub fn generate() -> (r: Id)
        ensures
            r is Uuid,
    {
        Id::Uuid(Uuid::new_v7())
    }

    pub fn from_number(n: i64) -> (r: Id)
        ensures
            r@ == IdView::Number(n as int),
    {
        Id::Number(n)
    }

    pub fn from_str(s: &str) -> (r: Id)
        ensures
            r@ == IdView::String(s@),
    {
        Id::String(s.to_owned())
    }

    pub fn duplicate(&self) -> (r: Id)
        ensures
            r@ == self@,
    {
        match self {
            Id::Number(n) => Id::Number(*n),
            Id::String(s) => Id::String(s.clone()),
            Id::Uuid(u) => Id::Uuid(*u),
        }
    }

    /// Whether two ids are the same.
    pub fn same(&self, other: &Id) -> (r: bool)
        ensures
            r == (self@ == other@),
    {
        match (self, other) {
            (Id::Number(a), Id::Number(b)) => *a == *b,
            (Id::String(a), Id::String(b)) => *a == *b,
            (Id::Uuid(a), Id::Uuid(b)) => a.0 == b.0,
            _ => false,
        }
    }
}

/// The mathematical value of a [`Record`].
pub struct RecordView {
    pub table: Seq<char>,
    pub id: IdView,
}

/// The address of an entity: the name of its table and its id there.
#[derive(Debug, Clone, PartialEq, Eq, Hash, PartialOrd, Ord)]
pub struct Record {
    pub table: String,
    pub id: Id,
}

impl Record {
    pub open spec fn view(&self) -> RecordView {
        RecordView { table: self.table@, id: self.id@ }
    }

    pub fn new(table: String, id: Id) -> (r: Record)
        ensures
            r@ == (RecordView { table: table@, id: id@ }),
    {
        Record { table, id }
    }

    /// A record of the table with a new time-ordered UUID as its id.
    pub fn generate(table: String) -> (r: Record)
        ensures
            r.table@ == table@,
            r.id is Uuid,
    {
        Record { table, id: Id::generate() }
    }

    pub fn duplicate(&self) -> (r: Record)
        ensures
            r@ == self@,
    {
        Record { table: self.table.clone(), id: self.id.duplicate() }
    }

    /// Whether two records are the same address.
    pub fn same(&self, other: &Record) -> (r: bool)
        ensures
            r == (self@ == other@),
    {
        self.table == other.table && self.id.same(&other.id)
    }

    /// Whether the record belongs to the named table.
    pub fn in_table(&self, table: &Strand) -> (r: bool)
        ensures
            r == (self.table@ == table@),
    {
        self.table == table.0
    }
}

} // verus!
