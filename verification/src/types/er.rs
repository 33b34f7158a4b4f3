//! ER / data-model diagram: entity boxes with field rows and relationship
//! cardinalities.

use crate::errors::{ParseError, Warning};
use crate::types::flowchart::EdgeRole;
use crate::types::shared::{density_warning, density_warnings};
use vstd::prelude::*;

verus! {

/// Soft cap above which a density warning is emitted (counted in entities).
pub const SOFT_CAP: usize = 10;

/// Stable type tag used in warnings.
pub const TYPE_TAG: &'static str = "er";

#[derive(Debug, Clone, Copy, PartialEq, Eq)]
pub enum EntityRole {
    Default,
    Focal,
}

/// Key marker of a field.
#[derive(Debug, Clone, Copy, PartialEq, Eq)]
pub enum FieldKey {
    /// Neither key.
    Plain,
    /// Primary key.
    Pk,
    /// Foreign key.
    Fk,
}

#[derive(Debug, Clone)]
pub struct EntityField {
    pub name: String,
    /// The field's type (JSON key `type`), written after the name when
    /// present and non-empty.
    pub ty: Option<String>,
    pub key: FieldKey,
}

#[derive(Debug, Clone)]
pub struct Entity {
    pub id: String,
    pub name: String,
    pub fields: Vec<EntityField>,
    pub role: EntityRole,
}

#[derive(Debug, Clone)]
pub struct Relationship {
    pub from: String,
    pub to: String,
    pub label: Option<String>,
    pub from_cardinality: Option<String>,
    pub to_cardinality: Option<String>,
    pub role: EdgeRole,
}

/// `{"type":"er","entities":[...],"relationships":[...]}`.
#[derive(Debug, Clone)]
pub struct ErSpec {
    pub entities: Vec<Entity>,
    pub relationships: Vec<Relationship>,
}

impl ErSpec {
    /// Role drives the accent; nothing to cross-check.
    pub fn validate(&self) -> (r: Result<(), ParseError>)
        ensures
            r == Ok::<(), ParseError>(()),
    {
        Ok(())
    }
}

/// Density warning when the entity count exceeds [`SOFT_CAP`].
pub fn warnings(spec: &ErSpec) -> (w: Vec<Warning>)
    ensures
        w@ == density_warnings(TYPE_TAG, spec.entities@.len() as int, SOFT_CAP as int),
{
    density_warning(TYPE_TAG, spec.entities.len(), SOFT_CAP)
}

/// The marker written before a field name: `# ` for a primary key, `-> `
/// for a foreign key, nothing otherwise.
pub open spec fn key_prefix(key: FieldKey) -> Seq<char> {
    match key {
        FieldKey::Plain => ""@,
        FieldKey::Pk => "# "@,
        FieldKey::Fk => "-> "@,
    }
}

/// The row text of a field: key marker, name, then `: type` when the field
/// has a non-empty type.
pub open spec fn field_text(field: EntityField) -> Seq<char> {
    match field.ty {
        Some(t) if t@.len() > 0 => key_prefix(field.key) + field.name@ + ": "@ + t@,
        _ => key_prefix(field.key) + field.name@,
    }
}

/// Render a field row: e.g. `# id: uuid`, `-> user_id: uuid`, `email`.
pub fn field_label(field: &EntityField) -> (s: String)
    ensures
        s@ == field_text(*field),
{
    let prefix = match field.key {
        FieldKey::Plain => "",
        FieldKey::Pk => "# ",
        FieldKey::Fk => "-> ",
    };
    let mut out = String::from_str(prefix);
    out.append(field.name.as_str());
    match &field.ty {
        Some(t) => {
            if !t.as_str().is_empty() {
                out.append(": ");
                out.append(t.as_str());
            }
        },
        None => {},
    }
    out
}

} // verus!
