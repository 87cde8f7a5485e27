//! What is remembered of a file from one scan to the next. An entry is used only while the size
//! and the time of the file are the same; what cannot be read is a miss, never an answer.
use vstd::prelude::*;

pub use crate::digest::{hash_to_hex, hex_to_hash};

use crate::digest::unhex;
use crate::order::Table;

verus! {

/// The version of the entries; a cache of another version is not used.
pub const CACHE_VERSION: u32 = 1;

/// What is remembered of a file.
#[derive(Debug, Clone)]
pub struct CacheEntry {
    pub size: u64,
    pub mtime_s: i64,
    pub mtime_ns: u32,
    /// The hash of the contents in hexadecimal; none for a file without contents.
    pub hash: Option<String>,
    pub lines: u32,
    pub is_binary: bool,
}

impl CacheEntry {
    /// Whether the entry still describes a file of this size and time.
    pub open spec fn fits(self, size: u64, mtime: (i64, u32)) -> bool {
        self.size == size && self.mtime_s == mtime.0 && self.mtime_ns == mtime.1
    }

    /// Whether the entry still describes a file of this size and time.
    pub fn matches(&self, size: u64, mtime: (i64, u32)) -> (r: bool)
        ensures
            r == self.fits(size, mtime),
    {
        self.size == size && self.mtime_s == mtime.0 && self.mtime_ns == mtime.1
    }

    /// Whether the hash of the entry, where it has one, can be read.
    pub open spec fn legible(self) -> bool {
        match self.hash {
            Some(s) => unhex(s@) is Some,
            None => true,
        }
    }

    /// Whether the hash of the entry, where it has one, can be read.
    pub fn is_legible(&self) -> (r: bool)
        ensures
            r == self.legible(),
    {
        match &self.hash {
            Some(s) => hex_to_hash(s.as_str()).is_some(),
            None => true,
        }
    }
}

/// What is remembered of files, by path.
#[derive(Debug)]
pub struct Cache {
    pub version: u32,
    pub entries: Table<CacheEntry, false>,
}

impl Default for Cache {
    fn default() -> (r: Cache)
        ensures
            r.version == 0,
            r.entries@.len() == 0,
    {
        Cache { version: 0, entries: Table::new() }
    }
}

impl Cache {
    /// The cache to use from what was read: nothing is remembered where nothing could be read,
    /// or what was read is of another version.
    pub fn accept(read: Option<Cache>) -> (r: Cache)
        ensures
            match read {
                Some(c) => if c.version == CACHE_VERSION {
                    r == c
                } else {
                    r.version == 0 && r.entries@.len() == 0
                },
                None => r.version == 0 && r.entries@.len() == 0,
            },
    {
        match read {
            Some(c) => if c.version == CACHE_VERSION {
                c
            } else {
                Cache::default()
            },
            None => Cache::default(),
        }
    }
}

} // verus!
