//! Which engine a server runs on a directory: the one asked for, which has
//! to be the one that the directory was first served with.

use vstd::prelude::*;
use vstd::utf8::encode_utf8;

verus! {

/// The engines that a server can run.
#[derive(Debug, Clone, Copy, PartialEq, Eq)]
pub enum EngineKind {
    /// The log-structured engine of this library.
    Kvs,
    /// The `sled` database.
    Sled,
}

/// Why the engine asked for cannot be run.
#[derive(Debug, Clone, Copy, PartialEq, Eq)]
pub enum ChoiceError {
    /// The name is that of no engine.
    Invalid,
    /// The directory was served with another engine before.
    Mismatch,
}

/// The bytes of the name `kvs`.
pub open spec fn kvs_name() -> Seq<u8> {
    seq![107u8, 118u8, 115u8]
}

/// The bytes of the name `sled`.
pub open spec fn sled_name() -> Seq<u8> {
    seq![115u8, 108u8, 101u8, 100u8]
}

/// The engine of this name.
pub open spec fn kind_of(name: Seq<u8>) -> Option<EngineKind> {
    if name == kvs_name() {
        Some(EngineKind::Kvs)
    } else if name == sled_name() {
        Some(EngineKind::Sled)
    } else {
        None
    }
}

/// The engine to run where `requested` was asked for and the directory
/// records `stored`, if it records any.
pub open spec fn chosen(requested: Seq<u8>, stored: Option<Seq<u8>>) -> Result<
    EngineKind,
    ChoiceError,
> {
    match kind_of(requested) {
        None => Err(ChoiceError::Invalid),
        Some(kind) => match stored {
            Some(before) => if before == requested {
                Ok(kind)
            } else {
                Err(ChoiceError::Mismatch)
            },
            None => Ok(kind),
        },
    }
}

/// Whether the two slices hold the same bytes.
fn same_bytes(a: &[u8], b: &[u8]) -> (r: bool)
    ensures
        r == (a@ == b@),
{
    if a.len() != b.len() {
        return false;
    }
    let mut i: usize = 0;
    while i < a.len()
        invariant
            i <= a@.len(),
            a@.len() == b@.len(),
            forall|k: int| 0 <= k < i ==> a@[k] == b@[k],
        decreases a@.len() - i,
    {
        if a[i] != b[i] {
            return false;
        }
        i += 1;
    }
    assert(a@ =~= b@);
    true
}

impl EngineKind {
    /// The engine of this name: `kvs` or `sled`.
    pub fn from_name(name: &str) -> (r: Option<EngineKind>)
        ensures
            r == kind_of(encode_utf8(name@)),
    {
        let bytes = name.as_bytes();
        let kvs: [u8; 3] = [107, 118, 115];
        let sled: [u8; 4] = [115, 108, 101, 100];
        assert(kvs@ =~= kvs_name());
        assert(sled@ =~= sled_name());
        if same_bytes(bytes, kvs.as_slice()) {
            Some(EngineKind::Kvs)
        } else if same_bytes(bytes, sled.as_slice()) {
            Some(EngineKind::Sled)
        } else {
            None
        }
    }

    /// The engine to run where `requested` was asked for and the directory
    /// records `stored`, if it records any. A name of no engine is invalid;
    /// a record of another name is a mismatch. Where the directory records
    /// nothing yet, the name asked for is to be recorded.
    pub fn select(requested: &str, stored: Option<&str>) -> (r: Result<EngineKind, ChoiceError>)
        ensures
            r == chosen(
                encode_utf8(requested@),
                match stored {
                    Some(before) => Some(encode_utf8(before@)),
                    None => None,
                },
            ),
    {
        let kind = match EngineKind::from_name(requested) {
            Some(kind) => kind,
            None => {
                return Err(ChoiceError::Invalid);
            },
        };
        match stored {
            Some(before) => {
                if same_bytes(before.as_bytes(), requested.as_bytes()) {
                    Ok(kind)
                } else {
                    Err(ChoiceError::Mismatch)
                }
            },
            None => Ok(kind),
        }
    }
}

impl ChoiceError {
    /// The text shown for this error.
    pub fn message(&self) -> (text: String)
        ensures
            text@ == match self {
                ChoiceError::Invalid => "Invalid engine"@,
                ChoiceError::Mismatch => "Engine mismatch"@,
            },
    {
        match self {
            ChoiceError::Invalid => "Invalid engine".to_owned(),
            ChoiceError::Mismatch => "Engine mismatch".to_owned(),
        }
    }
}

} // verus!
