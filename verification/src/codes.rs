use vstd::prelude::*;

verus! {

/// Kind of a feature column handed over by the host, told by its type code:
/// -2 logical, -1 numeric, 0 integer, a positive code a factor with that many
/// levels.
#[derive(Debug, Clone, Copy, PartialEq, Eq, Structural)]
pub enum AttributeKind {
    Logical,
    Numeric,
    Integer,
    Factor(u32),
}

/// The kind of a feature column from its type code; `None` for the codes
/// below -2, which name no supported type.
pub fn attribute_kind(code: i32) -> (r: Option<AttributeKind>)
    ensures
        r == if code <= -3 {
            None
        } else if code == -2 {
            Some(AttributeKind::Logical)
        } else if code == -1 {
            Some(AttributeKind::Numeric)
        } else if code == 0 {
            Some(AttributeKind::Integer)
        } else {
            Some(AttributeKind::Factor(code as u32))
        },
{
    if code <= -3 {
        None
    } else if code == -2 {
        Some(AttributeKind::Logical)
    } else if code == -1 {
        Some(AttributeKind::Numeric)
    } else if code == 0 {
        Some(AttributeKind::Integer)
    } else {
        Some(AttributeKind::Factor(code as u32))
    }
}

/// What a training run is asked to produce, from the bits of its task code:
/// bit 3 importance, bit 2 out-of-bag votes, bit 1 the trees themselves.
#[derive(Debug, Clone, Copy, PartialEq, Eq, Structural)]
pub struct TrainingTasks {
    pub importance: bool,
    pub oob: bool,
    pub save_forest: bool,
}

/// Decodes a task code.
pub fn training_tasks(task_code: u8) -> (r: TrainingTasks)
    ensures
        r.importance == (task_code & 8 != 0),
        r.oob == (task_code & 4 != 0),
        r.save_forest == (task_code & 2 != 0),
{
    TrainingTasks { importance: task_code & 8 != 0, oob: task_code & 4 != 0, save_forest: task_code & 2 != 0 }
}

} // verus!
