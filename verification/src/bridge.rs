//! The records and error the mobile apps see, and the conversions from the
//! library's own types. Type conversion only.

use vstd::prelude::*;

use crate::error::CoreError;
use crate::library::LibraryInfo;
use crate::node::Node;

verus! {

/// A node as the UI consumes it. No `position`: children arrive already
/// ordered.
#[derive(Debug, Clone, PartialEq, Eq)]
pub struct BridgeNode {
    pub id: String,
    pub parent_id: Option<String>,
    /// The node's title, or `None` while it is untitled.
    pub name: Option<String>,
    pub image_id: Option<String>,
}

impl From<Node> for BridgeNode {
    fn from(node: Node) -> (r: BridgeNode) {
        BridgeNode { id: node.id, parent_id: node.parent_id, name: node.name, image_id: node.image_id }
    }
}

impl vstd::std_specs::convert::FromSpecImpl<Node> for BridgeNode {
    open spec fn obeys_from_spec() -> bool {
        true
    }

    open spec fn from_spec(node: Node) -> BridgeNode {
        BridgeNode { id: node.id, parent_id: node.parent_id, name: node.name, image_id: node.image_id }
    }
}

/// A library for the picker.
#[derive(Debug, Clone, PartialEq, Eq)]
pub struct BridgeLibrary {
    pub id: String,
    pub name: String,
}

impl From<LibraryInfo> for BridgeLibrary {
    fn from(info: LibraryInfo) -> (r: BridgeLibrary) {
        BridgeLibrary { id: info.id, name: info.name }
    }
}

impl vstd::std_specs::convert::FromSpecImpl<LibraryInfo> for BridgeLibrary {
    open spec fn obeys_from_spec() -> bool {
        true
    }

    open spec fn from_spec(info: LibraryInfo) -> BridgeLibrary {
        BridgeLibrary { id: info.id, name: info.name }
    }
}

/// The error surface the apps throw and switch on.
#[derive(Debug, Clone, PartialEq, Eq)]
pub enum BridgeError {
    NotFound { msg: String },
    Database { msg: String },
    Config { msg: String },
    Internal { msg: String },
}

/// The app-facing error for a core error: not-found, database and config
/// errors keep their kind; every other kind surfaces as internal. The message
/// is kept.
pub open spec fn bridge_error_of(e: CoreError) -> BridgeError {
    match e {
        CoreError::NotFound(msg) => BridgeError::NotFound { msg },
        CoreError::Database(msg) => BridgeError::Database { msg },
        CoreError::Config(msg) => BridgeError::Config { msg },
        CoreError::Io(msg) => BridgeError::Internal { msg },
        CoreError::Keyring(msg) => BridgeError::Internal { msg },
        CoreError::Sync(msg) => BridgeError::Internal { msg },
        CoreError::Internal(msg) => BridgeError::Internal { msg },
    }
}

impl From<CoreError> for BridgeError {
    fn from(e: CoreError) -> (r: BridgeError) {
        match e {
            CoreError::NotFound(msg) => BridgeError::NotFound { msg },
            CoreError::Database(msg) => BridgeError::Database { msg },
            CoreError::Config(msg) => BridgeError::Config { msg },
            CoreError::Io(msg) => BridgeError::Internal { msg },
            CoreError::Keyring(msg) => BridgeError::Internal { msg },
            CoreError::Sync(msg) => BridgeError::Internal { msg },
            CoreError::Internal(msg) => BridgeError::Internal { msg },
        }
    }
}

impl vstd::std_specs::convert::FromSpecImpl<CoreError> for BridgeError {
    open spec fn obeys_from_spec() -> bool {
        true
    }

    open spec fn from_spec(e: CoreError) -> BridgeError {
        bridge_error_of(e)
    }
}

} // verus!
