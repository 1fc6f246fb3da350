use vstd::prelude::*;

verus! {

/// Why an entity key was refused.
#[derive(Copy, Clone, PartialEq, Eq, Structural, Debug)]
pub enum EntityError {
    /// The slot the key points at holds no entity.
    NotExists,
    /// The entity was created in the current transaction and is not committed yet.
    NotCommitted,
    /// The slot holds a newer entity than the one the key was issued for.
    IsStale,
}

/// Where a component lookup failed.
#[derive(Copy, Clone, PartialEq, Eq, Structural, Debug)]
pub enum ComponentNotFoundError {
    /// The entity has no mapping for the component type.
    Mapping,
    /// The mapping points at a data slot that holds nothing.
    Data,
}

/// Component related failures.
#[derive(Copy, Clone, PartialEq, Eq, Structural, Debug)]
pub enum ComponentError {
    NotFound(ComponentNotFoundError),
}

/// Any failure of a world operation.
#[derive(Copy, Clone, PartialEq, Eq, Structural, Debug)]
pub enum WorldError {
    Entity(EntityError),
    Component(ComponentError),
}

impl From<EntityError> for WorldError {
    fn from(err: EntityError) -> (r: WorldError) {
        WorldError::Entity(err)
    }
}

impl vstd::std_specs::convert::FromSpecImpl<EntityError> for WorldError {
    open spec fn obeys_from_spec() -> bool {
        true
    }

    open spec fn from_spec(v: EntityError) -> WorldError {
        WorldError::Entity(v)
    }
}

impl From<ComponentError> for WorldError {
    fn from(err: ComponentError) -> (r: WorldError) {
        WorldError::Component(err)
    }
}

impl vstd::std_specs::convert::FromSpecImpl<ComponentError> for WorldError {
    open spec fn obeys_from_spec() -> bool {
        true
    }

    open spec fn from_spec(v: ComponentError) -> WorldError {
        WorldError::Component(v)
    }
}

impl From<ComponentNotFoundError> for ComponentError {
    fn from(err: ComponentNotFoundError) -> (r: ComponentError) {
        ComponentError::NotFound(err)
    }
}

impl vstd::std_specs::convert::FromSpecImpl<ComponentNotFoundError> for ComponentError {
    open spec fn obeys_from_spec() -> bool {
        true
    }

    open spec fn from_spec(v: ComponentNotFoundError) -> ComponentError {
        ComponentError::NotFound(v)
    }
}

/// Result of a world operation.
pub type WorldResult<T = ()> = Result<T, WorldError>;

} // verus!
