use vstd::prelude::*;

verus! {

/// The closed set of node variants. Each has a fixed numeric id that is
/// written before the variant's payload when a node is stored, so that a
/// reader can build the right variant before it reads the payload.
#[derive(Clone, Copy, Debug, PartialEq, Eq, Structural)]
pub enum NodeKind {
    Base,
    Light,
    Camera,
    Mesh,
    ParticleSystem,
}

/// A stored variant id that names no variant.
#[derive(Clone, Copy, Debug, PartialEq, Eq, Structural)]
pub enum KindError {
    UnknownVariant(u8),
}

/// The variant that a stored id stands for, if any.
pub open spec fn kind_of_id(id: u8) -> Option<NodeKind> {
    if id == 0 {
        Some(NodeKind::Base)
    } else if id == 1 {
        Some(NodeKind::Light)
    } else if id == 2 {
        Some(NodeKind::Camera)
    } else if id == 3 {
        Some(NodeKind::Mesh)
    } else if id == 4 {
        Some(NodeKind::ParticleSystem)
    } else {
        None
    }
}

impl NodeKind {
    pub open spec fn spec_id(self) -> u8 {
        match self {
            NodeKind::Base => 0,
            NodeKind::Light => 1,
            NodeKind::Camera => 2,
            NodeKind::Mesh => 3,
            NodeKind::ParticleSystem => 4,
        }
    }

    /// Builds the default-initialised variant with the given id.
    pub fn new(id: u8) -> (r: Result<NodeKind, KindError>)
        ensures
            id <= 4 ==> r == Ok::<NodeKind, KindError>(kind_of_id(id)->Some_0),
            id > 4 ==> r == Err::<NodeKind, KindError>(KindError::UnknownVariant(id)),
            r is Ok ==> r->Ok_0.spec_id() == id,
    {
        match id {
            0 => Ok(NodeKind::Base),
            1 => Ok(NodeKind::Light),
            2 => Ok(NodeKind::Camera),
            3 => Ok(NodeKind::Mesh),
            4 => Ok(NodeKind::ParticleSystem),
            _ => Err(KindError::UnknownVariant(id)),
        }
    }

    /// The variant's fixed id.
    pub fn id(&self) -> (r: u8)
        ensures
            r == self.spec_id(),
            r <= 4,
            kind_of_id(r) == Some(*self),
    {
        match self {
            NodeKind::Base => 0,
            NodeKind::Light => 1,
            NodeKind::Camera => 2,
            NodeKind::Mesh => 3,
            NodeKind::ParticleSystem => 4,
        }
    }
}

/// Writing a variant's id and building a variant from it gives back the same
/// variant, and an id that builds a variant is that variant's id.
pub proof fn lemma_kind_id_round_trip(k: NodeKind, id: u8)
    ensures
        kind_of_id(k.spec_id()) == Some(k),
        kind_of_id(id) is Some ==> kind_of_id(id)->Some_0.spec_id() == id,
        kind_of_id(id) is None <==> id > 4,
{
}

} // verus!
