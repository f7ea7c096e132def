//! The error taxonomy of the vault core.
//!
//! Every operation reports failure through [`MyErr`], whose kind says exactly
//! what went wrong; each kind maps to a distinct human-readable message.

use vstd::prelude::*;

verus! {

/// The distinct failure kinds of the vault core, plus the pass-through
/// result codes of the remote execution collaborator.
#[derive(Clone, Copy, Debug, PartialEq, Eq, Structural)]
pub enum ErrKind {
    /// The at-rest text is not valid encoded binary.
    DecodeError,
    /// The decrypted byte stream does not conform to the expected padding,
    /// or is not valid text.
    CryptoError,
    /// The decrypted content does not parse as a vault.
    SchemaError,
    /// No vault exists at the given path.
    VaultNotFound,
    /// The atomic save failed; the original file is intact.
    PersistenceError,
    /// No stored credential matches the query.
    CredentialNotFound,
    /// A bad or out-of-range disambiguation answer.
    AmbiguousChoice,
    /// A malformed import line; nothing was imported.
    ImportFormatError,
    /// Remote execution: bad arguments.
    ExecBadArgs,
    /// Remote execution: conflicting arguments.
    ExecConflict,
    /// Remote execution: runtime error.
    ExecRuntime,
    /// Remote execution: parse error.
    ExecParse,
    /// Remote execution: authentication failed.
    ExecAuth,
    /// Remote execution: unknown host key.
    ExecUnknownHostKey,
    /// Remote execution: the host key has changed.
    ExecHostKeyChanged,
    /// Remote execution: connection timeout.
    ExecTimeout,
    /// Remote execution: unclassified internal error.
    ExecInternal,
}

/// An error of the vault core.
#[derive(Clone, Copy, Debug, PartialEq, Eq, Structural)]
pub struct MyErr {
    pub kind: ErrKind,
}

/// The human-readable message for each error kind.
pub open spec fn kind_message(k: ErrKind) -> Seq<char> {
    match k {
        ErrKind::DecodeError => "stored vault is not valid encoded data"@,
        ErrKind::CryptoError => "stored vault cannot be decrypted"@,
        ErrKind::SchemaError => "decrypted content does not parse as a vault"@,
        ErrKind::VaultNotFound => "no vault found; initialize one first"@,
        ErrKind::PersistenceError => "atomic save failed; the old vault is intact"@,
        ErrKind::CredentialNotFound => "not found"@,
        ErrKind::AmbiguousChoice => "err choose"@,
        ErrKind::ImportFormatError => "malformed import line"@,
        ErrKind::ExecBadArgs => "remote execution: bad arguments"@,
        ErrKind::ExecConflict => "remote execution: conflicting arguments"@,
        ErrKind::ExecRuntime => "remote execution: runtime error"@,
        ErrKind::ExecParse => "remote execution: parse error"@,
        ErrKind::ExecAuth => "remote execution: authentication failed"@,
        ErrKind::ExecUnknownHostKey => "remote execution: unknown host key"@,
        ErrKind::ExecHostKeyChanged => "remote execution: host key changed"@,
        ErrKind::ExecTimeout => "remote execution: connection timeout"@,
        ErrKind::ExecInternal => "remote execution: internal error"@,
    }
}

impl MyErr {
    /// Builds the error of the given kind.
    pub fn new(kind: ErrKind) -> (r: MyErr)
        ensures
            r.kind == kind,
    {
        MyErr { kind }
    }

    /// The distinct human-readable message for this error.
    pub fn message(&self) -> (r: String)
        ensures
            r@ == kind_message(self.kind),
    {
        match self.kind {
            ErrKind::DecodeError => String::from_str("stored vault is not valid encoded data"),
            ErrKind::CryptoError => String::from_str("stored vault cannot be decrypted"),
            ErrKind::SchemaError => String::from_str("decrypted content does not parse as a vault"),
            ErrKind::VaultNotFound => String::from_str("no vault found; initialize one first"),
            ErrKind::PersistenceError => String::from_str(
                "atomic save failed; the old vault is intact",
            ),
            ErrKind::CredentialNotFound => String::from_str("not found"),
            ErrKind::AmbiguousChoice => String::from_str("err choose"),
            ErrKind::ImportFormatError => String::from_str("malformed import line"),
            ErrKind::ExecBadArgs => String::from_str("remote execution: bad arguments"),
            ErrKind::ExecConflict => String::from_str("remote execution: conflicting arguments"),
            ErrKind::ExecRuntime => String::from_str("remote execution: runtime error"),
            ErrKind::ExecParse => String::from_str("remote execution: parse error"),
            ErrKind::ExecAuth => String::from_str("remote execution: authentication failed"),
            ErrKind::ExecUnknownHostKey => String::from_str("remote execution: unknown host key"),
            ErrKind::ExecHostKeyChanged => String::from_str("remote execution: host key changed"),
            ErrKind::ExecTimeout => String::from_str("remote execution: connection timeout"),
            ErrKind::ExecInternal => String::from_str("remote execution: internal error"),
        }
    }
}

/// Maps a result code of the remote execution collaborator into the core's
/// own error taxonomy: 0 is success, every other code a distinct kind.
pub fn map_exec_code(code: i32) -> (r: Result<(), MyErr>)
    ensures
        code == 0 <==> r is Ok,
        code == 1 ==> r == Result::<(), MyErr>::Err(MyErr { kind: ErrKind::ExecBadArgs }),
        code == 2 ==> r == Result::<(), MyErr>::Err(MyErr { kind: ErrKind::ExecConflict }),
        code == 3 ==> r == Result::<(), MyErr>::Err(MyErr { kind: ErrKind::ExecRuntime }),
        code == 4 ==> r == Result::<(), MyErr>::Err(MyErr { kind: ErrKind::ExecParse }),
        code == 5 ==> r == Result::<(), MyErr>::Err(MyErr { kind: ErrKind::ExecAuth }),
        code == 6 ==> r == Result::<(), MyErr>::Err(MyErr { kind: ErrKind::ExecUnknownHostKey }),
        code == 7 ==> r == Result::<(), MyErr>::Err(MyErr { kind: ErrKind::ExecHostKeyChanged }),
        code == 255 ==> r == Result::<(), MyErr>::Err(MyErr { kind: ErrKind::ExecTimeout }),
        !(code == 0 || code == 1 || code == 2 || code == 3 || code == 4 || code == 5 || code == 6
            || code == 7 || code == 255) ==> r == Result::<(), MyErr>::Err(
            MyErr { kind: ErrKind::ExecInternal },
        ),
{
    match code {
        0 => Ok(()),
        1 => Err(MyErr { kind: ErrKind::ExecBadArgs }),
        2 => Err(MyErr { kind: ErrKind::ExecConflict }),
        3 => Err(MyErr { kind: ErrKind::ExecRuntime }),
        4 => Err(MyErr { kind: ErrKind::ExecParse }),
        5 => Err(MyErr { kind: ErrKind::ExecAuth }),
        6 => Err(MyErr { kind: ErrKind::ExecUnknownHostKey }),
        7 => Err(MyErr { kind: ErrKind::ExecHostKeyChanged }),
        255 => Err(MyErr { kind: ErrKind::ExecTimeout }),
        _ => Err(MyErr { kind: ErrKind::ExecInternal }),
    }
}

} // verus!
