use vstd::prelude::*;

verus! {

/// Why the local store could not do what it was asked.
#[derive(Debug)]
pub struct StorageError {
    pub message: String,
}

pub type StorageResult<T, E = StorageError> = Result<T, E>;

/// The local key/value store as a node uses it. Every operation may fail;
/// nothing is promised of an implementation beyond the types.
pub trait Storage<V = String> {
    fn print(&self) -> StorageResult<()>;

    fn store(&self, key: &str, value: &V) -> StorageResult<()>;

    fn get(&self, key: &str) -> StorageResult<Option<V>>;

    fn remove(&self, key: &str) -> StorageResult<()>;

    fn contains(&self, key: &str) -> StorageResult<bool>;
}

/// A key/value store that owns its contents and hands out references to
/// them.
pub trait StorageService<V = String> {
    fn store(&mut self, key: String, value: V) -> Result<(), String>;

    fn get(&self, key: String) -> Option<&V>;

    fn remove(&mut self, key: String) -> Result<(), String>;

    fn contains(&self, key: String) -> bool;
}

} // verus!
