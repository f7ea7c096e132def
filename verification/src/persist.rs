//! The persistence protocol: crash-safe load and save of the vault against
//! an atomic file-store collaborator.
//!
//! The collaborator is modeled by [`VaultFile`]: the whole content of the
//! vault file, together with an all-or-nothing `write_atomic` whose outcome
//! parameter stands for the collaborator's report.  On failure the stored
//! content is left untouched — saving is all-or-nothing from the caller's
//! perspective.  A program front end performs the same protocol against the
//! real file system with [`Rdata::sealed_payload`] and
//! [`load_from_content`].

use vstd::prelude::*;

use crate::codec::{open_sealed, opened_of, seal, seal_of};
use crate::errs::{ErrKind, MyErr};
use crate::model::{fresh_vault, Rdata, RdataV};
use crate::serial::{spec_deser, spec_ser};

verus! {

/// The modeled vault file: either absent or holding sealed text.
pub struct VaultFile {
    pub content: Option<String>,
}

impl VaultFile {
    /// The stored text, as a mathematical value.
    pub open spec fn spec_content(self) -> Option<Seq<char>> {
        match self.content {
            Some(s) => Some(s@),
            None => None,
        }
    }

    /// A store with no vault in it.
    pub fn new() -> (r: VaultFile)
        ensures
            r.spec_content() is None,
    {
        VaultFile { content: None }
    }

    /// The atomic replace of the collaborator: `ok` is its reported outcome.
    /// On success the content is exactly the new text; on failure the old
    /// content is untouched and `PersistenceError` is surfaced.
    pub fn write_atomic(&mut self, text: &String, ok: bool) -> (r: Result<(), MyErr>)
        ensures
            ok ==> r is Ok && final(self).spec_content() == Some(text@),
            !ok ==> r == Result::<(), MyErr>::Err(MyErr { kind: ErrKind::PersistenceError })
                && *final(self) == *old(self),
    {
        if ok {
            self.content = Some(text.clone());
            Ok(())
        } else {
            Err(MyErr { kind: ErrKind::PersistenceError })
        }
    }

    /// A copy of the stored text, as the collaborator's read primitive
    /// returns it.
    pub fn read(&self) -> (r: Option<String>)
        ensures
            match r {
                Some(s) => self.spec_content() == Some(s@),
                None => self.spec_content() is None,
            },
    {
        match &self.content {
            Some(s) => Some(s.clone()),
            None => None,
        }
    }
}

/// The sealed text under which a vault is persisted.
pub open spec fn sealed_of(v: RdataV) -> Seq<char> {
    seal_of(spec_ser(v))
}

/// Decodes stored content into a vault.
///
/// Absent content fails with `VaultNotFound`.  Present content is opened
/// exactly as the codec classifies (`DecodeError` for text that is not
/// valid encoded binary, `CryptoError` for a decrypted stream that does not
/// conform), and an opened payload that is not a complete marshalling fails
/// with `SchemaError`.  On the sealed text of any vault it returns exactly
/// that vault.
pub fn load_from_content(content: &Option<String>) -> (r: Result<Rdata, MyErr>)
    ensures
        content is None ==> r == Result::<Rdata, MyErr>::Err(
            MyErr { kind: ErrKind::VaultNotFound },
        ),
        content matches Some(t) ==> match opened_of(t@) {
            Err(k) => r is Err && r->Err_0.kind == k,
            Ok(p) => match spec_deser(p) {
                None => r is Err && r->Err_0.kind == ErrKind::SchemaError,
                Some(v) => r is Ok && r->Ok_0@ == v,
            },
        },
        forall|v: RdataV|
            content matches Some(t) && t@ == #[trigger] sealed_of(v) && spec_deser(spec_ser(v))
                == Some(v) ==> r is Ok && r->Ok_0@ == v,
{
    let text = match content {
        Some(t) => t,
        None => {
            return Err(MyErr { kind: ErrKind::VaultNotFound });
        },
    };
    let payload = open_sealed(text.as_str())?;
    let data = Rdata::deserialize(payload.as_slice())?;
    Ok(data)
}

impl Rdata {
    /// The sealed text of this vault: its marshalled payload, encrypted and
    /// encoded for storage.
    pub fn sealed_payload(&self) -> (r: String)
        ensures
            r@ == sealed_of(self@),
    {
        let payload = self.serialize();
        seal(payload.as_slice())
    }

    /// Saves the vault: seals it and hands the text to the collaborator's
    /// atomic replace.  On failure the stored content is byte-identical to
    /// what it was before the save.
    pub fn save(&self, file: &mut VaultFile, write_ok: bool) -> (r: Result<(), MyErr>)
        ensures
            write_ok ==> r is Ok && final(file).spec_content() == Some(sealed_of(self@)),
            !write_ok ==> r == Result::<(), MyErr>::Err(MyErr { kind: ErrKind::PersistenceError })
                && *final(file) == *old(file),
    {
        let text = self.sealed_payload();
        file.write_atomic(&text, write_ok)
    }

    /// Loads the vault stored in the file.
    pub fn get(file: &VaultFile) -> (r: Result<Rdata, MyErr>)
        ensures
            file.spec_content() is None ==> r == Result::<Rdata, MyErr>::Err(
                MyErr { kind: ErrKind::VaultNotFound },
            ),
            file.spec_content() matches Some(t) ==> match opened_of(t) {
                Err(k) => r is Err && r->Err_0.kind == k,
                Ok(p) => match spec_deser(p) {
                    None => r is Err && r->Err_0.kind == ErrKind::SchemaError,
                    Some(v) => r is Ok && r->Ok_0@ == v,
                },
            },
            forall|v: RdataV|
                file.spec_content() == Some(#[trigger] sealed_of(v)) && spec_deser(spec_ser(v))
                    == Some(v) ==> r is Ok && r->Ok_0@ == v,
    {
        let content = file.read();
        load_from_content(&content)
    }

    /// Initializes the store with a fresh empty vault under the given
    /// gatekeeper passphrase and policy level.  Proceeds whether or not a
    /// vault already exists — re-initialization deliberately needs no
    /// knowledge of the old passphrase.
    pub fn init(file: &mut VaultFile, pwd: &str, version: u8, write_ok: bool) -> (r: Result<
        (),
        MyErr,
    >)
        ensures
            write_ok ==> r is Ok && final(file).spec_content() == Some(
                sealed_of(fresh_vault(pwd@, version)),
            ),
            !write_ok ==> r == Result::<(), MyErr>::Err(MyErr { kind: ErrKind::PersistenceError })
                && *final(file) == *old(file),
    {
        let fresh = Rdata::new(pwd, version);
        fresh.save(file, write_ok)
    }
}

} // verus!
