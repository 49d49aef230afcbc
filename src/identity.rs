//! Client identities: one ed25519 keypair per client, made before the run.
use vstd::prelude::*;
use crate::crypto::{ed25519_public_key, public_key_of, random_secret_key};

verus! {

/// A client's id (from 1) with its secret key and the public key derived from it.
#[derive(Clone, Copy, Debug)]
pub struct ClientIdentity {
    pub id: usize,
    pub signing_key: [u8; 32],
    pub verifying_key: [u8; 32],
}

impl ClientIdentity {
    pub open spec fn wf(&self) -> bool {
        &&& self.id >= 1
        &&& self.verifying_key@ == ed25519_public_key(self.signing_key@)
    }

    /// The identity of client `id` with the given secret key.
    pub fn from_secret(id: usize, signing_key: [u8; 32]) -> (r: ClientIdentity)
        requires
            id >= 1,
        ensures
            r.wf(),
            r.id == id,
            r.signing_key == signing_key,
    {
        let verifying_key = public_key_of(&signing_key);
        ClientIdentity { id, signing_key, verifying_key }
    }
}

/// Makes `num_clients` fresh identities with ids `1..=num_clients`, in order.
pub fn generate_keypairs(num_clients: usize) -> (r: Vec<ClientIdentity>)
    ensures
        r@.len() == num_clients,
        forall|i: int| 0 <= i < num_clients ==> (#[trigger] r@[i]).wf() && r@[i].id == i + 1,
{
    let mut out: Vec<ClientIdentity> = Vec::new();
    let mut i: usize = 0;
    while i < num_clients
        invariant
            i <= num_clients,
            out@.len() == i,
            forall|j: int| 0 <= j < i ==> (#[trigger] out@[j]).wf() && out@[j].id == j + 1,
        decreases num_clients - i,
    {
        let secret = random_secret_key();
        out.push(ClientIdentity::from_secret(i + 1, secret));
        i = i + 1;
    }
    out
}

/// The public keys of the identities, in the same order: the aggregator's key table.
pub fn verifying_keys(identities: &Vec<ClientIdentity>) -> (r: Vec<[u8; 32]>)
    ensures
        r@.len() == identities@.len(),
        forall|i: int| 0 <= i < r@.len() ==> #[trigger] r@[i] == identities@[i].verifying_key,
{
    let mut out: Vec<[u8; 32]> = Vec::new();
    let mut i: usize = 0;
    while i < identities.len()
        invariant
            i <= identities@.len(),
            out@.len() == i,
            forall|j: int| 0 <= j < i ==> #[trigger] out@[j] == identities@[j].verifying_key,
        decreases identities@.len() - i,
    {
        out.push(identities[i].verifying_key);
        i = i + 1;
    }
    out
}

} // verus!
