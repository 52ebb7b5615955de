//! Bookkeeping for checksum verification: which requests are pending, under
//! which key, and what an answer of the checksum service means for each.

use std::collections::HashMap;
use vstd::prelude::*;
use vstd::string::StringSliceAdditionalSpecFns;
use vstd::utf8::encode_utf8;
use crate::packages::Packages;
use crate::text::{percent_encoded, trim, trimmed, url_encode};

verus! {

broadcast use vstd::std_specs::hash::group_hash_axioms;

/// What the checksum service said of one request, as far as it is reported.
#[derive(Clone, Copy, Debug, PartialEq, Eq, Structural)]
pub enum VerificationResult {
    /// The service answered with a checksum; it equals the local one, or not.
    Matched(bool),
    /// The service answered with this error status.
    RequestFailed(u32),
}

/// The outcome of one request, with the package and version it was for.
#[derive(Debug)]
pub struct VerificationOutcome {
    pub pkg_name: String,
    pub version: String,
    pub result: VerificationResult,
}

/// A transfer to be made: the key of the request and the address to get.
#[derive(Debug)]
pub struct Transfer {
    pub key: u64,
    pub url: String,
}

/// A transfer that has ended: the key of the request, the status of the
/// answer and its body.
#[derive(Debug)]
pub struct CompletedTransfer {
    pub key: u64,
    pub status: u32,
    pub body: String,
}

/// Why a request was not queued.
#[derive(Clone, Copy, Debug, PartialEq, Eq, Structural)]
pub enum EnqueueError {
    /// The database has no such package, or no available version of it.
    UnknownPackage,
    /// Every key has been given out.
    KeysExhausted,
}

/// A verification request that has been queued and not yet answered.
#[derive(Debug)]
pub struct PendingRequest {
    pub pkg_name: String,
    pub version: String,
    pub local_md5: Option<String>,
}

/// The state of the verification engine: the server that new requests go
/// to, the key the next request gets, and the requests awaiting an answer,
/// each under its key.
#[derive(Debug)]
pub struct AsyncState {
    pub server: String,
    pub next_key: u64,
    pub pending: HashMap<u64, PendingRequest>,
}

/// The server that requests go to until another is configured.
pub const DEFAULT_SERVER: &'static str = "ece459.patricklam.ca:4590";

/// The text of a checksum on record; empty where there is none.
pub open spec fn local_text(local: Option<String>) -> Seq<char> {
    match local {
        Some(sum) => sum@,
        None => Seq::empty(),
    }
}

/// What is reported of an answer with this status and body to a request
/// with this local checksum: for status 200 whether the body, without the
/// whitespace around it, is the local checksum; for a status of 400 or
/// more the status; for any other status nothing.
pub open spec fn verdict(local: Option<String>, status: u32, body: Seq<char>) -> Option<
    VerificationResult,
> {
    if status == 200 {
        Some(VerificationResult::Matched(trimmed(body) == local_text(local)))
    } else if status >= 400 {
        Some(VerificationResult::RequestFailed(status))
    } else {
        None
    }
}

/// Computes [`verdict`].
pub fn judge(local: &Option<String>, status: u32, body: &str) -> (result: Option<VerificationResult>)
    ensures
        result == verdict(*local, status, body@),
{
    if status == 200 {
        let received = trim(body);
        let matches = match local {
            Some(sum) => String::from_str(received) == *sum,
            None => {
                assert(received@.len() == 0 <==> received@ =~= Seq::<char>::empty());
                received.is_empty()
            },
        };
        Some(VerificationResult::Matched(matches))
    } else if status >= 400 {
        Some(VerificationResult::RequestFailed(status))
    } else {
        None
    }
}

/// The outcome to report when `done` ends while `pending` are pending:
/// none for a key that is not pending, else as [`verdict`] says.
pub open spec fn report_of(pending: Map<u64, PendingRequest>, done: CompletedTransfer) -> Option<
    VerificationOutcome,
> {
    if pending.contains_key(done.key) {
        match verdict(pending[done.key].local_md5, done.status, done.body@) {
            None => None,
            Some(result) => Some(
                VerificationOutcome {
                    pkg_name: pending[done.key].pkg_name,
                    version: pending[done.key].version,
                    result,
                },
            ),
        }
    } else {
        None
    }
}

impl AsyncState {
    /// Nothing is pending, keys start at zero, requests go to the default
    /// server.
    pub open spec fn is_fresh(&self) -> bool {
        &&& self.server@ == DEFAULT_SERVER@
        &&& self.next_key == 0
        &&& self.pending@ == Map::<u64, PendingRequest>::empty()
    }

    /// Every pending key is below the next key: the request queued next
    /// gets a key that no pending request has.
    pub open spec fn wf(&self) -> bool {
        forall|key: u64| (#[trigger] self.pending@.contains_key(key)) ==> key < self.next_key
    }

    /// A fresh engine state.
    pub fn new() -> (state: AsyncState)
        ensures
            state.is_fresh(),
            state.wf(),
    {
        AsyncState {
            server: String::from_str(DEFAULT_SERVER),
            next_key: 0,
            pending: HashMap::new(),
        }
    }

    /// Takes note that the transfer `done` has ended. Its request is no
    /// longer pending afterwards, and what there is to report of it is
    /// returned. A key that is not pending changes nothing.
    pub fn complete(&mut self, done: &CompletedTransfer) -> (report: Option<VerificationOutcome>)
        ensures
            final(self).server == old(self).server,
            final(self).next_key == old(self).next_key,
            final(self).pending@ == old(self).pending@.remove(done.key),
            report == report_of(old(self).pending@, *done),
            old(self).wf() ==> final(self).wf(),
    {
        match self.pending.remove(&done.key) {
            None => None,
            Some(request) => {
                match judge(&request.local_md5, done.status, done.body.as_str()) {
                    None => None,
                    Some(result) => Some(
                        VerificationOutcome {
                            pkg_name: request.pkg_name,
                            version: request.version,
                            result,
                        },
                    ),
                }
            },
        }
    }
}

/// The requests still pending once the transfers `done` have ended, one
/// after the other.
pub open spec fn left_pending(pending: Map<u64, PendingRequest>, done: Seq<CompletedTransfer>) -> Map<
    u64,
    PendingRequest,
>
    decreases done.len(),
{
    if done.len() == 0 {
        pending
    } else {
        left_pending(pending, done.drop_last()).remove(done.last().key)
    }
}

/// The outcomes to report when the transfers `done` end, one after the
/// other, in that order: for each what [`report_of`] says, given the
/// requests that the transfers before it have left pending.
pub open spec fn reports(pending: Map<u64, PendingRequest>, done: Seq<CompletedTransfer>) -> Seq<
    VerificationOutcome,
>
    decreases done.len(),
{
    if done.len() == 0 {
        Seq::empty()
    } else {
        let before = reports(pending, done.drop_last());
        match report_of(left_pending(pending, done.drop_last()), done.last()) {
            Some(outcome) => before.push(outcome),
            None => before,
        }
    }
}

/// `key` is the key of none of the transfers `done`.
pub open spec fn not_among(key: u64, done: Seq<CompletedTransfer>) -> bool {
    forall|i: int| 0 <= i < done.len() ==> (#[trigger] done[i]).key != key
}

/// A key is among no transfers exactly if it is not the key of the last
/// and among none of those before.
pub proof fn lemma_not_among_last(key: u64, done: Seq<CompletedTransfer>)
    requires
        done.len() > 0,
    ensures
        not_among(key, done) <==> not_among(key, done.drop_last()) && key != done.last().key,
{
    let front = done.drop_last();
    if not_among(key, done) {
        assert forall|i: int| 0 <= i < front.len() implies (#[trigger] front[i]).key != key by {
            assert(front[i] == done[i]);
        }
        assert(done[done.len() - 1].key != key);
    }
    if not_among(key, front) && key != done.last().key {
        assert forall|i: int| 0 <= i < done.len() implies (#[trigger] done[i]).key != key by {
            if i < front.len() {
                assert(front[i] == done[i]);
            }
        }
    }
}

/// The end of some transfers leaves pending exactly the requests of other
/// keys, as they were.
pub proof fn lemma_left_pending(pending: Map<u64, PendingRequest>, done: Seq<CompletedTransfer>)
    ensures
        forall|key: u64|
            (#[trigger] left_pending(pending, done).contains_key(key)) <==> pending.contains_key(
                key,
            ) && not_among(key, done),
        forall|key: u64|
            (#[trigger] left_pending(pending, done).contains_key(key)) ==> left_pending(
                pending,
                done,
            )[key] == pending[key],
    decreases done.len(),
{
    let left = left_pending(pending, done);
    if done.len() > 0 {
        let front = done.drop_last();
        let before = left_pending(pending, front);
        lemma_left_pending(pending, front);
        assert(left == before.remove(done.last().key));
        assert forall|key: u64|
            (#[trigger] left.contains_key(key)) <==> pending.contains_key(key) && not_among(
                key,
                done,
            ) by {
            lemma_not_among_last(key, done);
            assert(left.contains_key(key) <==> before.contains_key(key) && key
                != done.last().key);
        }
        assert forall|key: u64| (#[trigger] left.contains_key(key)) implies left[key]
            == pending[key] by {
            assert(before.contains_key(key));
            assert(left[key] == before[key]);
        }
    }
}

/// A key is good for one answer: once a transfer with the key has ended,
/// no request is pending under it, and a second end of a transfer with the
/// same key reports nothing and changes nothing.
pub proof fn lemma_key_consumed_once(
    pending: Map<u64, PendingRequest>,
    first: CompletedTransfer,
    second: CompletedTransfer,
)
    requires
        first.key == second.key,
    ensures
        !pending.remove(first.key).contains_key(second.key),
        report_of(pending.remove(first.key), second).is_none(),
        pending.remove(first.key).remove(second.key) == pending.remove(first.key),
{
    assert(pending.remove(first.key).remove(second.key) =~= pending.remove(first.key));
}

/// Each answer is reported once: where the transfers that ended have keys
/// that differ from each other and are all pending, and each status is 200
/// or at least 400, there are as many outcomes as transfers, whatever the
/// order in which they ended, and none of their requests is left pending.
pub proof fn lemma_one_report_each(pending: Map<u64, PendingRequest>, done: Seq<CompletedTransfer>)
    requires
        forall|i: int, j: int|
            0 <= i < j < done.len() ==> (#[trigger] done[i]).key != (#[trigger] done[j]).key,
        forall|i: int| 0 <= i < done.len() ==> pending.contains_key((#[trigger] done[i]).key),
        forall|i: int|
            0 <= i < done.len() ==> (#[trigger] done[i]).status == 200 || done[i].status >= 400,
    ensures
        reports(pending, done).len() == done.len(),
        forall|i: int|
            0 <= i < done.len() ==> !left_pending(pending, done).contains_key(
                (#[trigger] done[i]).key,
            ),
    decreases done.len(),
{
    lemma_left_pending(pending, done);
    if done.len() > 0 {
        let front = done.drop_last();
        let last = done.last();
        assert forall|i: int| 0 <= i < front.len() implies front[i] == done[i] by {}
        lemma_one_report_each(pending, front);
        lemma_left_pending(pending, front);
        assert(last == done[done.len() - 1]);
        assert(not_among(last.key, front)) by {
            assert forall|i: int| 0 <= i < front.len() implies (#[trigger] front[i]).key
                != last.key by {
                assert(done[i].key != done[done.len() - 1].key);
            }
        }
        assert(left_pending(pending, front).contains_key(last.key));
    }
}

/// Where every pending request is answered, nothing is left pending.
pub proof fn lemma_all_answered(pending: Map<u64, PendingRequest>, done: Seq<CompletedTransfer>)
    requires
        forall|key: u64|
            (#[trigger] pending.contains_key(key)) ==> exists|i: int|
                0 <= i < done.len() && (#[trigger] done[i]).key == key,
    ensures
        left_pending(pending, done) == Map::<u64, PendingRequest>::empty(),
{
    lemma_left_pending(pending, done);
    assert(left_pending(pending, done) =~= Map::<u64, PendingRequest>::empty());
}

/// The address at which `server` gives the checksum of version
/// `encoded_version`, which is percent-encoded, of package `pkg`.
pub open spec fn request_url(server: Seq<char>, pkg: Seq<char>, encoded_version: Seq<char>) -> Seq<
    char,
> {
    "http://"@ + server + "/rest/v1/checksums/"@ + pkg + "/"@ + encoded_version
}

impl Packages {
    /// The checksum on record for the package called `name`, if any.
    pub open spec fn md5_of(&self, name: Seq<char>) -> Option<Seq<char>> {
        match self.record_named(name) {
            Some(r) => match r.md5sum {
                Some(sum) => Some(sum@),
                None => None,
            },
            None => None,
        }
    }

    /// `request` is the request for version `version` of the package
    /// called `pkg`, with the checksum that the database has on record.
    pub open spec fn is_request_for(
        &self,
        request: PendingRequest,
        pkg: Seq<char>,
        version: Seq<char>,
    ) -> bool {
        &&& request.pkg_name@ == pkg
        &&& request.version@ == version
        &&& match request.local_md5 {
            Some(sum) => self.md5_of(pkg) == Some(sum@),
            None => self.md5_of(pkg).is_none(),
        }
    }

    /// `queued` and `after` are what comes of queueing, in the state
    /// `self`, a request for version `version` of the package called `pkg`.
    /// Where no key is left, an error and the same state. Else the transfer
    /// to make, with the next key and the address of the request; that key
    /// is used up, and the request is pending under it beside those that
    /// were.
    pub open spec fn enqueued(
        &self,
        after: Packages,
        queued: Result<Transfer, EnqueueError>,
        pkg: Seq<char>,
        version: Seq<char>,
    ) -> bool {
        let before = self.async_state;
        if before.next_key == u64::MAX {
            queued == Err::<Transfer, EnqueueError>(EnqueueError::KeysExhausted)
                && after.async_state == before
        } else {
            &&& queued matches Ok(transfer)
            &&& transfer.key == before.next_key
            &&& transfer.url@ == request_url(
                before.server@,
                pkg,
                percent_encoded(encode_utf8(version)),
            )
            &&& after.async_state.next_key == before.next_key + 1
            &&& after.async_state.pending@.contains_key(transfer.key)
            &&& after.async_state.pending@ == before.pending@.insert(
                transfer.key,
                after.async_state.pending@[transfer.key],
            )
            &&& self.is_request_for(after.async_state.pending@[transfer.key], pkg, version)
        }
    }

    /// The text of the version in which the package called `name` is
    /// available, if the database knows the package and such a version.
    pub open spec fn available_text(&self, name: Seq<char>) -> Option<Seq<char>> {
        match self.record_named(name) {
            Some(r) => match r.available {
                Some(v) => Some(v.text@),
                None => None,
            },
            None => None,
        }
    }

    /// Sets the server that later requests go to. Requests that are
    /// pending keep the address they were queued with.
    pub fn set_server(&mut self, new_server: &str)
        ensures
            final(self).async_state.server@ == new_server@,
            final(self).async_state.next_key == old(self).async_state.next_key,
            final(self).async_state.pending == old(self).async_state.pending,
            final(self).records == old(self).records,
    {
        self.async_state.server = String::from_str(new_server);
    }

    /// Queues a request to verify version `version` of the package called
    /// `pkg`, under the next key, and returns the transfer to make for it.
    /// The local checksum is the one on record now. In a well-formed
    /// engine no pending request has that key. Fails, and changes nothing,
    /// only where no key is left.
    pub fn enq_verify_with_version(&mut self, pkg: &str, version: &str) -> (queued: Result<
        Transfer,
        EnqueueError,
    >)
        requires
            old(self).wf(),
        ensures
            final(self).records == old(self).records,
            final(self).async_state.server == old(self).async_state.server,
            old(self).async_state.wf() ==> final(self).async_state.wf(),
            old(self).enqueued(*final(self), queued, pkg@, version@),
    {
        let key: u64 = self.async_state.next_key;
        if key == u64::MAX {
            return Err(EnqueueError::KeysExhausted);
        }
        let encoded_version = url_encode(version);
        let mut url = String::from_str("http://");
        url.append(self.async_state.server.as_str());
        url.append("/rest/v1/checksums/");
        url.append(pkg);
        url.append("/");
        url.append(encoded_version.as_str());
        let local_md5 = match self.get_md5sum(pkg) {
            Some(sum) => Some(String::from_str(sum)),
            None => None,
        };
        self.async_state.pending.insert(
            key,
            PendingRequest {
                pkg_name: String::from_str(pkg),
                version: String::from_str(version),
                local_md5,
            },
        );
        self.async_state.next_key = key + 1;
        Ok(Transfer { key, url })
    }

    /// Queues a request to verify the available version of the package
    /// called `pkg`, as [`Self::enq_verify_with_version`] does. Fails, and
    /// changes nothing, where the database knows no such package or no
    /// available version of it.
    pub fn enq_verify(&mut self, pkg: &str) -> (queued: Result<Transfer, EnqueueError>)
        requires
            old(self).wf(),
        ensures
            final(self).records == old(self).records,
            final(self).async_state.server == old(self).async_state.server,
            old(self).async_state.wf() ==> final(self).async_state.wf(),
            match old(self).available_text(pkg@) {
                None => queued == Err::<Transfer, EnqueueError>(EnqueueError::UnknownPackage)
                    && final(self).async_state == old(self).async_state,
                Some(version) => old(self).enqueued(*final(self), queued, pkg@, version),
            },
    {
        let version: String = match self.get_available_debver(pkg) {
            None => {
                return Err(EnqueueError::UnknownPackage);
            },
            Some(v) => v.text.clone(),
        };
        self.enq_verify_with_version(pkg, version.as_str())
    }

    /// Takes note that the transfers `completed` have ended, in that
    /// order, and returns the outcomes to report, in the same order. The
    /// request of each is no longer pending afterwards. Of a transfer
    /// whose key is not pending, and of a status that is neither 200 nor
    /// 400 or more, nothing is reported.
    pub fn execute(&mut self, completed: &Vec<CompletedTransfer>) -> (outcomes: Vec<
        VerificationOutcome,
    >)
        ensures
            final(self).records == old(self).records,
            final(self).async_state.server == old(self).async_state.server,
            final(self).async_state.next_key == old(self).async_state.next_key,
            old(self).async_state.wf() ==> final(self).async_state.wf(),
            final(self).async_state.pending@ == left_pending(
                old(self).async_state.pending@,
                completed@,
            ),
            outcomes@ == reports(old(self).async_state.pending@, completed@),
    {
        let ghost start = self.async_state.pending@;
        let mut outcomes: Vec<VerificationOutcome> = Vec::new();
        let mut k: usize = 0;
        while k < completed.len()
            invariant
                k <= completed.len(),
                self.records == old(self).records,
                self.async_state.server == old(self).async_state.server,
                self.async_state.next_key == old(self).async_state.next_key,
                old(self).async_state.wf() ==> self.async_state.wf(),
                start == old(self).async_state.pending@,
                self.async_state.pending@ == left_pending(start, completed@.take(k as int)),
                outcomes@ == reports(start, completed@.take(k as int)),
            decreases completed.len() - k,
        {
            proof {
                assert(completed@.take(k + 1).drop_last() == completed@.take(k as int));
                assert(completed@.take(k + 1).last() == completed@[k as int]);
            }
            if let Some(outcome) = self.async_state.complete(&completed[k]) {
                outcomes.push(outcome);
            }
            k += 1;
        }
        assert(completed@.take(k as int) == completed@);
        outcomes
    }
}

} // verus!
