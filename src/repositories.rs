use vstd::prelude::*;

pub mod label;
pub mod todo;

verus! {

/// The errors that a repository operation reports to its caller.
#[derive(Debug, Clone, PartialEq, Eq)]
pub enum RepositoryError {
    /// No todo or label with this id exists.
    NotFound(i32),
    /// A label with the requested name already exists; carries its id.
    Duplicate(i32),
    /// A storage failure that fits no other kind.
    Unexpected(String),
}

/// What a delete statement reports once it has run: no row removed means
/// that no row had the id `id`.
pub fn deletion_result(id: i32, rows_affected: u64) -> (r: Result<(), RepositoryError>)
    ensures
        rows_affected == 0 ==> r == Err::<(), RepositoryError>(RepositoryError::NotFound(id)),
        rows_affected > 0 ==> r == Ok::<(), RepositoryError>(()),
{
    if rows_affected == 0 {
        Err(RepositoryError::NotFound(id))
    } else {
        Ok(())
    }
}

} // verus!
