//! Tasks with encrypted responses, and their decryption once the owner
//! reveals the private key.

use vstd::prelude::*;
use crate::network::Error;
use crate::table::Table;
use crate::types::AccountId;
use crate::utils::bytes_eq;

verus! {

/// A set of byte strings, each held once.
#[derive(Debug)]
pub struct ByteSet {
    items: Vec<Vec<u8>>,
}

impl ByteSet {
    /// The byte strings in stored order.
    pub closed spec fn items(&self) -> Seq<Vec<u8>> {
        self.items@
    }

    /// No byte string is held twice.
    pub open spec fn wf(&self) -> bool {
        forall|i: int, j: int|
            0 <= i < j < self.items().len() ==> #[trigger] self.items()[i]@ != #[trigger] self.items()[j]@
    }

    /// The set of byte strings held.
    pub open spec fn view(&self) -> Set<Seq<u8>> {
        Set::new(|s: Seq<u8>| exists|i: int| 0 <= i < self.items().len() && #[trigger] self.items()[i]@ == s)
    }

    pub fn new() -> (r: ByteSet)
        ensures
            r.wf(),
            r@ == Set::<Seq<u8>>::empty(),
            r.items().len() == 0,
    {
        let r = ByteSet { items: Vec::new() };
        assert(r@ =~= Set::<Seq<u8>>::empty());
        r
    }

    pub fn len(&self) -> (n: usize)
        ensures
            n == self.items().len(),
    {
        self.items.len()
    }

    pub fn item_at(&self, i: usize) -> (r: &Vec<u8>)
        requires
            i < self.items().len(),
        ensures
            *r == self.items()[i as int],
    {
        &self.items[i]
    }

    /// Whether `s` is held.
    pub fn contains(&self, s: &Vec<u8>) -> (b: bool)
        ensures
            b == self@.contains(s@),
    {
        let mut i: usize = 0;
        while i < self.items.len()
            invariant
                i <= self.items@.len(),
                forall|j: int| 0 <= j < i ==> #[trigger] self.items@[j]@ != s@,
            decreases self.items@.len() - i,
        {
            if bytes_eq(&self.items[i], s) {
                proof {
                    assert(self.items()[i as int]@ == s@);
                }
                return true;
            }
            i = i + 1;
        }
        false
    }

    /// Adds `s` unless it is held already.
    pub fn insert(&mut self, s: Vec<u8>)
        requires
            old(self).wf(),
        ensures
            final(self).wf(),
            final(self)@ == old(self)@.insert(s@),
    {
        if self.contains(&s) {
            proof {
                assert(self@ =~= old(self)@.insert(s@));
            }
            return;
        }
        let ghost sv = s@;
        self.items.push(s);
        proof {
            let o = old(self).items();
            assert forall|x: Seq<u8>| self@.contains(x) <==> old(self)@.insert(sv).contains(x) by {
                if self@.contains(x) {
                    let i = choose|i: int| 0 <= i < self.items().len() && #[trigger] self.items()[i]@ == x;
                    if i < o.len() {
                        assert(o[i]@ == x);
                    }
                }
                if old(self)@.contains(x) {
                    let i = choose|i: int| 0 <= i < o.len() && #[trigger] o[i]@ == x;
                    assert(self.items()[i]@ == x);
                }
                if x == sv {
                    assert(self.items()[o.len() as int]@ == x);
                }
            }
            assert(self@ =~= old(self)@.insert(sv));
        }
    }

    /// The set of the byte strings of `v`.
    pub fn from_vec(v: Vec<Vec<u8>>) -> (r: ByteSet)
        ensures
            r.wf(),
            r@ == Set::new(|s: Seq<u8>| exists|i: int| 0 <= i < v@.len() && #[trigger] v@[i]@ == s),
    {
        let mut v = v;
        let ghost o = v@;
        let mut r = ByteSet::new();
        let ghost mut i: int = 0;
        proof {
            assert(v@ =~= o.subrange(0, o.len() as int));
            assert(r@ =~= Set::new(|s: Seq<u8>| exists|j: int| 0 <= j < i && #[trigger] o[j]@ == s));
        }
        while v.len() > 0
            invariant
                r.wf(),
                0 <= i <= o.len(),
                v@ == o.subrange(i, o.len() as int),
                r@ == Set::new(|s: Seq<u8>| exists|j: int| 0 <= j < i && #[trigger] o[j]@ == s),
            decreases v@.len(),
        {
            let x = v.remove(0);
            proof {
                assert(x == o[i]);
            }
            let ghost before = r@;
            r.insert(x);
            proof {
                assert(r@ =~= Set::new(|s: Seq<u8>| exists|j: int| 0 <= j < i + 1 && #[trigger] o[j]@ == s)) by {
                    assert forall|s: Seq<u8>| (exists|j: int| 0 <= j < i + 1 && #[trigger] o[j]@ == s) implies r@.contains(s) by {
                        let j = choose|j: int| 0 <= j < i + 1 && #[trigger] o[j]@ == s;
                        if j < i {
                            assert(before.contains(s));
                        }
                    }
                }
                i = i + 1;
                assert(v@ =~= o.subrange(i, o.len() as int));
            }
        }
        proof {
            assert(r@ =~= Set::new(|s: Seq<u8>| exists|j: int| 0 <= j < o.len() && #[trigger] o[j]@ == s));
        }
        r
    }
}

/// A task and the encrypted responses it collected.
#[derive(Debug)]
pub struct Task {
    pub owner: AccountId,
    pub data: Vec<u8>,
    pub encrypted_responses: ByteSet,
}

/// The shared secret x25519-dalek derives from a secret key and a public key,
/// each given as its 32 bytes.
pub uninterp spec fn x25519_shared_secret(secret: Seq<u8>, public: Seq<u8>) -> Seq<u8>;

/// x25519-dalek: `StaticSecret::from(secret).diffie_hellman(&PublicKey::from(public))`,
/// as its 32 bytes. Claimed: the result is `x25519_shared_secret` of the two keys.
#[verifier::external_body]
fn x25519_diffie_hellman(secret: [u8; 32], public: [u8; 32]) -> (shared: [u8; 32])
    ensures
        shared@ == x25519_shared_secret(secret@, public@),
{
    let secret = x25519_dalek::StaticSecret::from(secret);
    let public = x25519_dalek::PublicKey::from(public);
    secret.diffie_hellman(&public).to_bytes()
}

/// `cipher` XORed with `key` repeated.
pub open spec fn xor_with_key(cipher: Seq<u8>, key: Seq<u8>) -> Seq<u8> {
    Seq::new(cipher.len(), |i: int| cipher[i] ^ key[i % 32])
}

/// The plain text of `encrypted`: its first 32 bytes are the sender's public
/// key, the rest is XORed with the secret shared with the holder of `secret`.
pub open spec fn decrypted(secret: Seq<u8>, encrypted: Seq<u8>) -> Seq<u8> {
    xor_with_key(encrypted.skip(32), x25519_shared_secret(secret, encrypted.take(32)))
}

/// XORs the bytes of `encrypted` past its first 32 with `key` repeated.
pub fn xor_stream(encrypted: &Vec<u8>, key: &[u8; 32]) -> (r: Vec<u8>)
    requires
        encrypted@.len() >= 32,
    ensures
        r@ == xor_with_key(encrypted@.skip(32), key@),
{
    let mut out: Vec<u8> = Vec::new();
    let mut i: usize = 32;
    while i < encrypted.len()
        invariant
            32 <= i <= encrypted@.len(),
            out@.len() == i - 32,
            forall|j: int| 0 <= j < i - 32 ==> #[trigger] out@[j] == encrypted@[j + 32] ^ key@[j % 32],
        decreases encrypted@.len() - i,
    {
        let b = encrypted[i] ^ key[(i - 32) % 32];
        out.push(b);
        i = i + 1;
    }
    proof {
        assert(out@ =~= xor_with_key(encrypted@.skip(32), key@));
    }
    out
}

/// Decrypts `encrypted` with the secret key `secret`; fails when it is shorter
/// than a public key.
pub fn decrypt_data(secret: &[u8; 32], encrypted: &Vec<u8>) -> (r: Result<Vec<u8>, Error>)
    ensures
        encrypted@.len() < 32 ==> r == Err::<Vec<u8>, Error>(Error::DecryptionFailed),
        encrypted@.len() >= 32 ==> (r matches Ok(d) && d@ == decrypted(secret@, encrypted@)),
{
    if encrypted.len() < 32 {
        return Err(Error::DecryptionFailed);
    }
    let mut public = [0u8; 32];
    let mut i: usize = 0;
    while i < 32
        invariant
            i <= 32,
            encrypted@.len() >= 32,
            public@.len() == 32,
            forall|j: int| 0 <= j < i ==> #[trigger] public@[j] == encrypted@[j],
        decreases 32 - i,
    {
        public[i] = encrypted[i];
        i = i + 1;
    }
    proof {
        assert(public@ =~= encrypted@.take(32));
    }
    let shared = x25519_diffie_hellman(*secret, public);
    Ok(xor_stream(encrypted, &shared))
}

/// Submitted tasks and the results revealed for them.
pub struct TaskBoard {
    pub tasks: Table<u32, Task>,
    pub decrypted_results: Table<u32, ByteSet>,
}

impl TaskBoard {
    pub open spec fn wf(&self) -> bool {
        &&& self.tasks.wf()
        &&& self.decrypted_results.wf()
        &&& forall|id: u32| #[trigger] self.tasks@.contains_key(id) ==> self.tasks@[id].encrypted_responses.wf()
    }

    pub fn new() -> (b: TaskBoard)
        ensures
            b.wf(),
            b.tasks@ == Map::<u32, Task>::empty(),
            b.decrypted_results@ == Map::<u32, ByteSet>::empty(),
    {
        TaskBoard { tasks: Table::new(), decrypted_results: Table::new() }
    }

    /// Records task `task_id` of `sender`; an id in use is refused.
    pub fn submit_task(&mut self, sender: AccountId, task_id: u32, data: Vec<u8>, encrypted_responses: Vec<Vec<u8>>) -> (r: Result<(), Error>)
        requires
            old(self).wf(),
        ensures
            final(self).wf(),
            old(self).tasks@.contains_key(task_id) ==> r == Err::<(), Error>(Error::TaskNotFound) && *final(self) == *old(self),
            !old(self).tasks@.contains_key(task_id) ==> {
                let t = final(self).tasks@[task_id];
                &&& r is Ok
                &&& final(self).tasks@.contains_key(task_id)
                &&& final(self).tasks@.remove(task_id) == old(self).tasks@
                &&& t.owner == sender
                &&& t.data@ == data@
                &&& t.encrypted_responses@ == Set::new(
                    |s: Seq<u8>| exists|i: int| 0 <= i < encrypted_responses@.len() && #[trigger] encrypted_responses@[i]@ == s,
                )
                &&& final(self).decrypted_results == old(self).decrypted_results
            },
    {
        if self.tasks.contains_key(&task_id) {
            return Err(Error::TaskNotFound);
        }
        let ghost dv = data@;
        let task = Task { owner: sender, data, encrypted_responses: ByteSet::from_vec(encrypted_responses) };
        self.tasks.insert(task_id, task);
        proof {
            assert(self.tasks@.remove(task_id) =~= old(self).tasks@);
        }
        Ok(())
    }

    /// The owner of task `task_id` reveals its private key; every response is
    /// decrypted and the results recorded.
    pub fn reveal_results(&mut self, sender: AccountId, task_id: u32, private_key_bytes: [u8; 32]) -> (r: Result<(), Error>)
        requires
            old(self).wf(),
        ensures
            final(self).wf(),
            !old(self).tasks@.contains_key(task_id) || old(self).tasks@[task_id].owner != sender ==> r
                == Err::<(), Error>(Error::TaskNotFound),
            old(self).tasks@.contains_key(task_id) && old(self).tasks@[task_id].owner == sender ==> {
                let responses = old(self).tasks@[task_id].encrypted_responses@;
                if exists|e: Seq<u8>| #[trigger] responses.contains(e) && e.len() < 32 {
                    r == Err::<(), Error>(Error::DecryptionFailed)
                } else {
                    &&& r is Ok
                    &&& final(self).decrypted_results@.contains_key(task_id)
                    &&& final(self).decrypted_results@.remove(task_id) == old(self).decrypted_results@.remove(task_id)
                    &&& final(self).decrypted_results@[task_id]@ == Set::new(
                        |d: Seq<u8>| exists|e: Seq<u8>| #[trigger] responses.contains(e) && d == decrypted(private_key_bytes@, e),
                    )
                }
            },
            r is Err ==> *final(self) == *old(self),
            final(self).tasks == old(self).tasks,
    {
        let task = match self.tasks.get(&task_id) {
            Some(t) => t,
            None => {
                return Err(Error::TaskNotFound);
            },
        };
        if task.owner != sender {
            return Err(Error::TaskNotFound);
        }
        let responses = &task.encrypted_responses;
        let ghost rs = responses.items();
        let mut results = ByteSet::new();
        let mut i: usize = 0;
        while i < responses.len()
            invariant
                *self == *old(self),
                self.wf(),
                old(self).tasks@.contains_key(task_id),
                old(self).tasks@[task_id].owner == sender,
                *responses == old(self).tasks@[task_id].encrypted_responses,
                responses.wf(),
                rs == responses.items(),
                i <= rs.len(),
                results.wf(),
                forall|j: int| 0 <= j < i ==> (#[trigger] rs[j])@.len() >= 32,
                results@ == Set::new(|d: Seq<u8>| exists|j: int| 0 <= j < i && d == decrypted(private_key_bytes@, (#[trigger] rs[j])@)),
            decreases rs.len() - i,
        {
            let ghost before = results@;
            match decrypt_data(&private_key_bytes, responses.item_at(i)) {
                Ok(d) => {
                    results.insert(d);
                },
                Err(e) => {
                    proof {
                        assert(responses@.contains(rs[i as int]@));
                    }
                    return Err(e);
                },
            }
            proof {
                assert(results@ =~= Set::new(|d: Seq<u8>| exists|j: int| 0 <= j < i + 1 && d == decrypted(private_key_bytes@, (#[trigger] rs[j])@))) by {
                    assert forall|d: Seq<u8>| (exists|j: int| 0 <= j < i + 1 && d == decrypted(private_key_bytes@, (#[trigger] rs[j])@)) implies results@.contains(d) by {
                        let j = choose|j: int| 0 <= j < i + 1 && d == decrypted(private_key_bytes@, (#[trigger] rs[j])@);
                        if j < i {
                            assert(before.contains(d));
                        }
                    }
                }
            }
            i = i + 1;
        }
        let ghost responses_view = responses@;
        proof {
            assert forall|e: Seq<u8>| #[trigger] responses_view.contains(e) implies e.len() >= 32 by {
                let j = choose|j: int| 0 <= j < rs.len() && #[trigger] rs[j]@ == e;
            }
            assert(results@ =~= Set::new(
                |d: Seq<u8>| exists|e: Seq<u8>| #[trigger] responses_view.contains(e) && d == decrypted(private_key_bytes@, e),
            )) by {
                assert forall|d: Seq<u8>| results@.contains(d) implies exists|e: Seq<u8>| #[trigger] responses_view.contains(e) && d == decrypted(private_key_bytes@, e) by {
                    let j = choose|j: int| 0 <= j < i && d == decrypted(private_key_bytes@, (#[trigger] rs[j])@);
                    assert(responses_view.contains(rs[j]@));
                }
                assert forall|d: Seq<u8>| (exists|e: Seq<u8>| #[trigger] responses_view.contains(e) && d == decrypted(private_key_bytes@, e)) implies results@.contains(d) by {
                    let e = choose|e: Seq<u8>| #[trigger] responses_view.contains(e) && d == decrypted(private_key_bytes@, e);
                    let j = choose|j: int| 0 <= j < rs.len() && #[trigger] rs[j]@ == e;
                    assert(d == decrypted(private_key_bytes@, rs[j]@));
                }
            }
        }
        self.decrypted_results.insert(task_id, results);
        proof {
            assert(self.decrypted_results@.remove(task_id) =~= old(self).decrypted_results@.remove(task_id));
        }
        Ok(())
    }
}

} // verus!
