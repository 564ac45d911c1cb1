//! The bookkeeping of a stash of memdb files.
//!
//! A stash is a folder of memdb files that follows a remote bucket. The
//! stash remembers, for each file that it holds, what the bucket said
//! of it when it was fetched. From that state and a listing of the
//! bucket this module works out what has to be fetched and what has to
//! be deleted, and how the state changes as each step is done. Fetching
//! and deleting is left to the program that uses the library.
use vstd::prelude::*;
use vstd::string::*;
use crate::errors::ErrorKind;
use crate::sdk::{
    fits_before, fuzzy_order, lemma_fuzzy_order_total, spec_from_filename, spec_fuzzy_match,
    spec_memdb_filename, SdkInfo, SdkInfoView,
};
use vstd::multiset::Multiset;
use vstd::relations::sorted_by;
use crate::text::{str_chars, str_eq};

verus! {

/// Helper for synching
#[derive(Clone, Copy)]
pub struct SyncOptions {
    pub user_facing: bool,
}

impl Default for SyncOptions {
    fn default() -> (r: SyncOptions)
        ensures
            !r.user_facing,
    {
        SyncOptions { user_facing: false }
    }
}

/// What a `RemoteSdk` stands for.
pub struct RemoteSdkView {
    pub filename: Seq<char>,
    pub info: SdkInfoView,
    pub size: u64,
    pub etag: Seq<char>,
}

/// Information about a remotely available SDK
#[derive(Debug)]
pub struct RemoteSdk {
    filename: String,
    info: SdkInfo,
    size: u64,
    etag: String,
}

impl View for RemoteSdk {
    type V = RemoteSdkView;

    closed spec fn view(&self) -> RemoteSdkView {
        RemoteSdkView {
            filename: self.filename@,
            info: self.info@,
            size: self.size,
            etag: self.etag@,
        }
    }
}

impl Clone for RemoteSdk {
    fn clone(&self) -> (r: RemoteSdk)
        ensures
            r@ == self@,
    {
        RemoteSdk {
            filename: self.filename.clone(),
            info: self.info.clone(),
            size: self.size,
            etag: self.etag.clone(),
        }
    }
}

/// `s` without the letters `z` at its end.
pub open spec fn trim_z(s: Seq<char>) -> Seq<char>
    decreases s.len(),
{
    if s.len() > 0 && s.last() == 'z' {
        trim_z(s.drop_last())
    } else {
        s
    }
}

impl RemoteSdkView {
    /// The name of the file in the stash: the remote name without the
    /// `z` that marks it as compressed.
    pub open spec fn local_filename(self) -> Seq<char> {
        trim_z(self.filename)
    }
}

impl RemoteSdk {
    /// Creates a remote SDK object from some information
    pub fn new(filename: String, info: SdkInfo, etag: String, size: u64) -> (r: RemoteSdk)
        ensures
            r@ == (RemoteSdkView { filename: filename@, info: info@, size, etag: etag@ }),
    {
        RemoteSdk { filename, info, etag, size }
    }

    /// The remotely visible filename for the SDK
    pub fn filename(&self) -> (r: &str)
        ensures
            r@ == self@.filename,
    {
        self.filename.as_str()
    }

    /// The local filename the SDK has in the stash folder
    pub fn local_filename(&self) -> (r: &str)
        ensures
            r@ == self@.local_filename(),
    {
        let chars = str_chars(self.filename.as_str());
        let mut n: usize = chars.len();
        assert(chars@.take(n as int) =~= chars@);
        while n > 0 && chars[n - 1] == 'z'
            invariant
                0 <= n <= chars@.len(),
                trim_z(chars@) == trim_z(chars@.take(n as int)),
            decreases n,
        {
            assert(chars@.take(n as int).drop_last() =~= chars@.take(n - 1));
            n -= 1;
        }
        assert(chars@.take(n as int) =~= chars@.subrange(0, n as int));
        self.filename.as_str().substring_char(0, n)
    }

    /// The size of the SDK in bytes
    pub fn size(&self) -> (r: u64)
        ensures
            r == self@.size,
    {
        self.size
    }

    /// The entity tag that the bucket gave for the SDK.
    pub fn etag(&self) -> (r: &str)
        ensures
            r@ == self@.etag,
    {
        self.etag.as_str()
    }

    /// Returns the SDK info
    pub fn info(&self) -> (r: &SdkInfo)
        ensures
            r@ == self@.info,
    {
        &self.info
    }

    /// Whether two entries say the same of an SDK.
    pub fn same_as(&self, other: &RemoteSdk) -> (r: bool)
        ensures
            r == (self@ == other@),
    {
        str_eq(self.filename.as_str(), other.filename.as_str()) && self.info.same_as(&other.info)
            && self.size == other.size && str_eq(self.etag.as_str(), other.etag.as_str())
    }
}

/// The position of the entry with the local filename `key`, or -1
/// where there is none.
pub open spec fn find_sdk(sdks: Seq<RemoteSdkView>, key: Seq<char>) -> int
    decreases sdks.len(),
{
    if sdks.len() == 0 {
        -1
    } else {
        let r = find_sdk(sdks.drop_last(), key);
        if r >= 0 {
            r
        } else if sdks.last().local_filename() == key {
            sdks.len() - 1
        } else {
            -1
        }
    }
}

/// No two entries have the same local filename.
pub open spec fn unique_keys(sdks: Seq<RemoteSdkView>) -> bool {
    forall|i: int, j: int|
        0 <= i < j < sdks.len() ==> (#[trigger] sdks[i]).local_filename() != (
        #[trigger] sdks[j]).local_filename()
}

/// `find_sdk` gives the first position with the key.
pub proof fn lemma_find_sdk(sdks: Seq<RemoteSdkView>, key: Seq<char>)
    ensures
        -1 <= find_sdk(sdks, key) < sdks.len(),
        find_sdk(sdks, key) >= 0 ==> sdks[find_sdk(sdks, key)].local_filename() == key,
        forall|i: int|
            0 <= i < sdks.len() && (#[trigger] sdks[i]).local_filename() == key ==> 0 <= find_sdk(
                sdks,
                key,
            ) <= i,
    decreases sdks.len(),
{
    if sdks.len() > 0 {
        lemma_find_sdk(sdks.drop_last(), key);
        assert forall|i: int|
            0 <= i < sdks.len() && (#[trigger] sdks[i]).local_filename() == key implies 0
            <= find_sdk(sdks, key) <= i by {
            if i < sdks.len() - 1 {
                assert(sdks.drop_last()[i] == sdks[i]);
            }
        }
    }
}

/// `sdks` with `sdk` in place of the entry of the same local filename,
/// or at the end where there is no such entry.
pub open spec fn upsert(sdks: Seq<RemoteSdkView>, sdk: RemoteSdkView) -> Seq<RemoteSdkView> {
    let i = find_sdk(sdks, sdk.local_filename());
    if i >= 0 {
        sdks.update(i, sdk)
    } else {
        sdks.push(sdk)
    }
}

/// `sdks` without the entry of the local filename `key`.
pub open spec fn without(sdks: Seq<RemoteSdkView>, key: Seq<char>) -> Seq<RemoteSdkView> {
    let i = find_sdk(sdks, key);
    if i >= 0 {
        sdks.remove(i)
    } else {
        sdks
    }
}

/// What a sync state stands for: its entries, and its revision.
pub struct SyncStateView {
    pub sdks: Seq<RemoteSdkView>,
    pub revision: u64,
}

/// What the stash knows of the files that it holds: for each local
/// filename what the bucket said of the SDK when it was fetched, and
/// the number of changes made so far.
pub struct SdkSyncState {
    sdks: Vec<RemoteSdk>,
    revision: Option<u64>,
}

/// The views of the entries of `v`.
pub open spec fn sdks_view(v: Seq<RemoteSdk>) -> Seq<RemoteSdkView> {
    Seq::new(v.len(), |i: int| v[i]@)
}

impl View for SdkSyncState {
    type V = SyncStateView;

    closed spec fn view(&self) -> SyncStateView {
        SyncStateView {
            sdks: sdks_view(self.sdks@),
            revision: match self.revision {
                Some(r) => r,
                None => 0,
            },
        }
    }
}

impl Clone for SdkSyncState {
    fn clone(&self) -> (r: SdkSyncState)
        ensures
            r@ == self@,
    {
        proof {
            use_type_invariant(self);
        }
        let mut sdks: Vec<RemoteSdk> = Vec::new();
        let mut i: usize = 0;
        while i < self.sdks.len()
            invariant
                0 <= i <= self.sdks@.len(),
                sdks_view(sdks@) == sdks_view(self.sdks@).take(i as int),
            decreases self.sdks@.len() - i,
        {
            let ghost before = sdks_view(sdks@);
            let sdk = self.sdks[i].clone();
            sdks.push(sdk);
            assert(sdks_view(sdks@) =~= before.push(self.sdks@[i as int]@));
            assert(sdks_view(self.sdks@).take(i + 1) =~= sdks_view(self.sdks@).take(i as int).push(
                self.sdks@[i as int]@,
            ));
            i += 1;
        }
        assert(sdks_view(self.sdks@).take(i as int) =~= sdks_view(self.sdks@));
        SdkSyncState { sdks, revision: self.revision }
    }
}

impl SdkSyncState {
    /// A state holds no local filename twice.
    #[verifier::type_invariant]
    spec fn inv(&self) -> bool {
        unique_keys(sdks_view(self.sdks@))
    }

    /// The state of an empty stash.
    pub fn new() -> (r: SdkSyncState)
        ensures
            r@.sdks.len() == 0,
            r@.revision == 0,
    {
        SdkSyncState { sdks: Vec::new(), revision: None }
    }

    /// A state with the given entries, later entries taking the place
    /// of earlier ones of the same local filename, and the given
    /// revision.
    pub fn from_parts(sdks: &Vec<RemoteSdk>, revision: u64) -> (r: SdkSyncState)
        ensures
            r@.sdks == spec_remote_state(sdks_view(sdks@)),
            r@.revision == revision,
    {
        let mut state = SdkSyncState { sdks: Vec::new(), revision: Some(revision) };
        let ghost views = sdks_view(sdks@);
        let mut i: usize = 0;
        assert(views.take(0) =~= Seq::<RemoteSdkView>::empty());
        assert(sdks_view(state.sdks@) =~= Seq::<RemoteSdkView>::empty());
        while i < sdks.len()
            invariant
                0 <= i <= sdks@.len(),
                views == sdks_view(sdks@),
                state@.revision == revision,
                state@.sdks == spec_remote_state(views.take(i as int)),
            decreases sdks@.len() - i,
        {
            assert(views.take(i + 1).drop_last() =~= views.take(i as int));
            assert(views.take(i + 1).last() == sdks@[i as int]@);
            state.update_sdk(&sdks[i]);
            i += 1;
        }
        assert(views.take(i as int) =~= views);
        state
    }

    /// The position of the entry with the local filename `filename`.
    fn find_index(&self, filename: &str) -> (r: Option<usize>)
        ensures
            match r {
                Some(i) => i < self@.sdks.len() && find_sdk(self@.sdks, filename@) == i,
                None => find_sdk(self@.sdks, filename@) == -1,
            },
    {
        let ghost views = sdks_view(self.sdks@);
        let mut i: usize = 0;
        assert(views.take(0) =~= Seq::<RemoteSdkView>::empty());
        while i < self.sdks.len()
            invariant
                0 <= i <= self.sdks@.len(),
                views == sdks_view(self.sdks@),
                find_sdk(views.take(i as int), filename@) == -1,
            decreases self.sdks@.len() - i,
        {
            assert(views.take(i + 1).drop_last() =~= views.take(i as int));
            assert(views.take(i + 1).last() == self.sdks@[i as int]@);
            if str_eq(self.sdks[i].local_filename(), filename) {
                proof {
                    lemma_find_sdk_prefix(views, filename@, i + 1);
                }
                return Some(i);
            }
            i += 1;
        }
        assert(views.take(i as int) =~= views);
        None
    }

    /// The entry of the SDK with the local filename `filename`.
    pub fn get_sdk(&self, filename: &str) -> (r: Option<&RemoteSdk>)
        ensures
            match r {
                Some(sdk) => find_sdk(self@.sdks, filename@) >= 0 && sdk@ == self@.sdks[find_sdk(
                    self@.sdks,
                    filename@,
                )],
                None => find_sdk(self@.sdks, filename@) == -1,
            },
    {
        match self.find_index(filename) {
            Some(i) => Some(&self.sdks[i]),
            None => None,
        }
    }

    /// Puts `sdk` into the state, in place of the entry of the same
    /// local filename where there is one.
    pub fn update_sdk(&mut self, sdk: &RemoteSdk)
        ensures
            final(self)@.sdks == upsert(old(self)@.sdks, sdk@),
            final(self)@.revision == old(self)@.revision,
    {
        proof {
            use_type_invariant(&*self);
            lemma_find_sdk(self@.sdks, sdk@.local_filename());
        }
        let ghost before = self@.sdks;
        match self.find_index(sdk.local_filename()) {
            Some(i) => {
                let mut sdks: Vec<RemoteSdk> = Vec::new();
                core::mem::swap(&mut sdks, &mut self.sdks);
                sdks.set(i, sdk.clone());
                proof {
                    let after = sdks_view(sdks@);
                    assert(after =~= before.update(i as int, sdk@));
                    assert forall|a: int, b: int| 0 <= a < b < after.len() implies (
                    #[trigger] after[a]).local_filename() != (
                    #[trigger] after[b]).local_filename() by {
                        assert(before[a].local_filename() != before[b].local_filename());
                    }
                }
                self.sdks = sdks;
            },
            None => {
                let mut sdks: Vec<RemoteSdk> = Vec::new();
                core::mem::swap(&mut sdks, &mut self.sdks);
                sdks.push(sdk.clone());
                proof {
                    let after = sdks_view(sdks@);
                    assert(after =~= before.push(sdk@));
                    assert forall|a: int, b: int| 0 <= a < b < after.len() implies (
                    #[trigger] after[a]).local_filename() != (
                    #[trigger] after[b]).local_filename() by {
                        if b == before.len() {
                            assert(before[a] == after[a]);
                        } else {
                            assert(before[a].local_filename() != before[b].local_filename());
                        }
                    }
                }
                self.sdks = sdks;
            },
        }
    }

    /// Takes the entry with the local filename `filename` out of the
    /// state. Returns whether there was one.
    pub fn remove_sdk(&mut self, filename: &str) -> (r: bool)
        ensures
            r == (find_sdk(old(self)@.sdks, filename@) >= 0),
            final(self)@.sdks == without(old(self)@.sdks, filename@),
            final(self)@.revision == old(self)@.revision,
    {
        proof {
            use_type_invariant(&*self);
        }
        let ghost before = self@.sdks;
        match self.find_index(filename) {
            Some(i) => {
                let mut sdks: Vec<RemoteSdk> = Vec::new();
                core::mem::swap(&mut sdks, &mut self.sdks);
                sdks.remove(i);
                proof {
                    let after = sdks_view(sdks@);
                    assert(after =~= before.remove(i as int));
                    assert forall|a: int, b: int| 0 <= a < b < after.len() implies (
                    #[trigger] after[a]).local_filename() != (
                    #[trigger] after[b]).local_filename() by {
                        let a0 = if a < i {
                            a
                        } else {
                            a + 1
                        };
                        let b0 = if b < i {
                            b
                        } else {
                            b + 1
                        };
                        assert(after[a] == before[a0]);
                        assert(after[b] == before[b0]);
                        assert(before[a0].local_filename() != before[b0].local_filename());
                    }
                }
                self.sdks = sdks;
                true
            },
            None => false,
        }
    }

    /// The entries of the state. No two have the same local filename.
    pub fn sdks(&self) -> (r: &Vec<RemoteSdk>)
        ensures
            sdks_view(r@) == self@.sdks,
            unique_keys(self@.sdks),
    {
        proof {
            use_type_invariant(self);
        }
        &self.sdks
    }

    /// The number of changes made to the state so far.
    pub fn revision(&self) -> (r: u64)
        ensures
            r == self@.revision,
    {
        match self.revision {
            Some(r) => r,
            None => 0,
        }
    }
}

/// The state that a listing of the bucket stands for: its entries by
/// their local filenames, a later entry taking the place of an earlier
/// one of the same local filename.
pub open spec fn spec_remote_state(listing: Seq<RemoteSdkView>) -> Seq<RemoteSdkView>
    decreases listing.len(),
{
    if listing.len() == 0 {
        Seq::empty()
    } else {
        upsert(spec_remote_state(listing.drop_last()), listing.last())
    }
}

/// Once the key is found among the first `k` entries, it is found there
/// among all.
pub proof fn lemma_find_sdk_prefix(sdks: Seq<RemoteSdkView>, key: Seq<char>, k: int)
    requires
        0 <= k <= sdks.len(),
        find_sdk(sdks.take(k), key) >= 0,
    ensures
        find_sdk(sdks, key) == find_sdk(sdks.take(k), key),
    decreases sdks.len() - k,
{
    if k < sdks.len() {
        assert(sdks.take(k + 1).drop_last() =~= sdks.take(k));
        lemma_find_sdk_prefix(sdks, key, k + 1);
    } else {
        assert(sdks.take(k) =~= sdks);
    }
}

/// What a `SyncAction` stands for.
pub enum SyncActionView {
    Download(RemoteSdkView),
    Delete(RemoteSdkView),
}

/// One step of a sync.
pub enum SyncAction {
    /// Fetch the SDK from the bucket and store it under its local
    /// filename, in place of what is there.
    Download(RemoteSdk),
    /// Delete the file of the SDK, which the bucket no longer lists.
    Delete(RemoteSdk),
}

impl View for SyncAction {
    type V = SyncActionView;

    open spec fn view(&self) -> SyncActionView {
        match self {
            SyncAction::Download(sdk) => SyncActionView::Download(sdk@),
            SyncAction::Delete(sdk) => SyncActionView::Delete(sdk@),
        }
    }
}

/// The views of the actions of `v`.
pub open spec fn actions_view(v: Seq<SyncAction>) -> Seq<SyncActionView> {
    Seq::new(v.len(), |i: int| v[i]@)
}

/// Whether `sdk` has to be fetched: the state holds no entry of its
/// local filename, or one that says something else of it.
pub open spec fn needs_update(local: Seq<RemoteSdkView>, sdk: RemoteSdkView) -> bool {
    let i = find_sdk(local, sdk.local_filename());
    i < 0 || local[i] != sdk
}

/// A download for each entry of `remote` that has to be fetched, in
/// the order of `remote`.
pub open spec fn downloads(local: Seq<RemoteSdkView>, remote: Seq<RemoteSdkView>) -> Seq<
    SyncActionView,
>
    decreases remote.len(),
{
    if remote.len() == 0 {
        Seq::empty()
    } else if needs_update(local, remote.last()) {
        downloads(local, remote.drop_last()).push(SyncActionView::Download(remote.last()))
    } else {
        downloads(local, remote.drop_last())
    }
}

/// A deletion for each of the first `n` entries of `local` whose local
/// filename `remote` does not hold, in the order of `local`.
pub open spec fn deletions(local: Seq<RemoteSdkView>, remote: Seq<RemoteSdkView>, n: int) -> Seq<
    SyncActionView,
>
    decreases n,
{
    if n <= 0 {
        Seq::empty()
    } else if find_sdk(remote, local[n - 1].local_filename()) < 0 {
        deletions(local, remote, n - 1).push(SyncActionView::Delete(local[n - 1]))
    } else {
        deletions(local, remote, n - 1)
    }
}

/// The steps that bring the stash in line with a listing of the
/// bucket: first the downloads of what is new or has changed, then the
/// deletions of what is no longer listed.
pub open spec fn spec_plan(local: Seq<RemoteSdkView>, listing: Seq<RemoteSdkView>) -> Seq<
    SyncActionView,
> {
    downloads(local, spec_remote_state(listing)) + deletions(
        local,
        spec_remote_state(listing),
        local.len() as int,
    )
}

/// The revision after one more change.
pub open spec fn next_revision(revision: u64) -> u64 {
    if revision < u64::MAX {
        (revision + 1) as u64
    } else {
        revision
    }
}

/// The state after a step was done, and whether the step changed it.
/// A download puts its SDK into the state, a deletion takes its SDK
/// out; either counts as a change, and raises the revision by one,
/// only where it leaves the entries other than they were.
pub open spec fn spec_apply(state: SyncStateView, action: SyncActionView) -> (SyncStateView, bool) {
    match action {
        SyncActionView::Download(sdk) => if needs_update(state.sdks, sdk) {
            (
                SyncStateView {
                    sdks: upsert(state.sdks, sdk),
                    revision: next_revision(state.revision),
                },
                true,
            )
        } else {
            (state, false)
        },
        SyncActionView::Delete(sdk) => if find_sdk(state.sdks, sdk.local_filename()) >= 0 {
            (
                SyncStateView {
                    sdks: without(state.sdks, sdk.local_filename()),
                    revision: next_revision(state.revision),
                },
                true,
            )
        } else {
            (state, false)
        },
    }
}

/// The state after the steps were done one after the other.
pub open spec fn spec_run(state: SyncStateView, actions: Seq<SyncActionView>) -> SyncStateView
    decreases actions.len(),
{
    if actions.len() == 0 {
        state
    } else {
        spec_apply(spec_run(state, actions.drop_last()), actions.last()).0
    }
}

/// The number of the steps that changed the state.
pub open spec fn count_applied(state: SyncStateView, actions: Seq<SyncActionView>) -> nat
    decreases actions.len(),
{
    if actions.len() == 0 {
        0
    } else {
        count_applied(state, actions.drop_last()) + if spec_apply(
            spec_run(state, actions.drop_last()),
            actions.last(),
        ).1 {
            1nat
        } else {
            0nat
        }
    }
}

/// After any sequence of steps the revision has grown by the number of
/// the steps that changed the state, as far as a revision can count:
/// it stays at the greatest number that it can hold.
pub proof fn lemma_revision_counts_changes(state: SyncStateView, actions: Seq<SyncActionView>)
    ensures
        spec_run(state, actions).revision == (if state.revision + count_applied(state, actions)
            <= u64::MAX {
            state.revision + count_applied(state, actions)
        } else {
            u64::MAX as int
        }),
        count_applied(state, actions) <= actions.len(),
    decreases actions.len(),
{
    if actions.len() > 0 {
        lemma_revision_counts_changes(state, actions.drop_last());
    }
}

impl SdkSyncState {
    /// Works out the steps that bring the stash in line with `listing`.
    pub fn plan_sync(&self, listing: &Vec<RemoteSdk>) -> (r: Vec<SyncAction>)
        ensures
            actions_view(r@) == spec_plan(self@.sdks, sdks_view(listing@)),
    {
        let remote = SdkSyncState::from_parts(listing, 0);
        let ghost local = self@.sdks;
        let ghost rview = remote@.sdks;
        let mut actions: Vec<SyncAction> = Vec::new();
        let mut i: usize = 0;
        assert(rview.take(0) =~= Seq::<RemoteSdkView>::empty());
        assert(actions_view(actions@) =~= Seq::<SyncActionView>::empty());
        while i < remote.sdks.len()
            invariant
                0 <= i <= remote.sdks@.len(),
                local == self@.sdks,
                rview == remote@.sdks,
                rview == sdks_view(remote.sdks@),
                actions_view(actions@) == downloads(local, rview.take(i as int)),
            decreases remote.sdks@.len() - i,
        {
            let sdk = &remote.sdks[i];
            assert(rview.take(i + 1).drop_last() =~= rview.take(i as int));
            assert(rview.take(i + 1).last() == sdk@);
            let fetch = match self.get_sdk(sdk.local_filename()) {
                Some(local_sdk) => !local_sdk.same_as(sdk),
                None => true,
            };
            if fetch {
                let ghost before = actions_view(actions@);
                actions.push(SyncAction::Download(sdk.clone()));
                assert(actions_view(actions@) =~= before.push(SyncActionView::Download(sdk@)));
            }
            i += 1;
        }
        assert(rview.take(i as int) =~= rview);
        let ghost first = actions_view(actions@);
        let mut k: usize = 0;
        while k < self.sdks.len()
            invariant
                0 <= k <= self.sdks@.len(),
                local == self@.sdks,
                local == sdks_view(self.sdks@),
                rview == remote@.sdks,
                first == downloads(local, rview),
                actions_view(actions@) == first + deletions(local, rview, k as int),
            decreases self.sdks@.len() - k,
        {
            let sdk = &self.sdks[k];
            assert(local[k as int] == sdk@);
            if remote.get_sdk(sdk.local_filename()).is_none() {
                let ghost before = actions_view(actions@);
                actions.push(SyncAction::Delete(sdk.clone()));
                assert(actions_view(actions@) =~= before.push(SyncActionView::Delete(sdk@)));
                assert(actions_view(actions@) =~= first + deletions(local, rview, k + 1));
            }
            k += 1;
        }
        actions
    }

    /// Records that a step was done. Returns whether that changed the
    /// state; if so, the revision is raised by one.
    pub fn apply(&mut self, action: &SyncAction) -> (r: bool)
        ensures
            (final(self)@, r) == spec_apply(old(self)@, action@),
    {
        let changed = match action {
            SyncAction::Download(sdk) => {
                let fetch = match self.get_sdk(sdk.local_filename()) {
                    Some(local_sdk) => !local_sdk.same_as(sdk),
                    None => true,
                };
                if fetch {
                    self.update_sdk(sdk);
                }
                fetch
            },
            SyncAction::Delete(sdk) => self.remove_sdk(sdk.local_filename()),
        };
        if changed {
            let revision = self.revision();
            let ghost sdks = self@.sdks;
            let next = if revision < u64::MAX {
                revision + 1
            } else {
                revision
            };
            proof {
                use_type_invariant(&*self);
            }
            self.revision = Some(next);
            assert(self@.sdks == sdks);
        }
        changed
    }
}

/// Information about the health of the stash sync
#[derive(Debug, Clone, Copy)]
pub struct SyncStatus {
    remote_total: u32,
    missing: u32,
    different: u32,
    revision: u64,
    offline: bool,
}

/// The lesser of `n` and the greatest 32-bit number.
pub open spec fn cap_u32(n: int) -> u32 {
    if n < u32::MAX {
        n as u32
    } else {
        u32::MAX
    }
}

/// The number of the first `n` entries of `remote` whose local
/// filename the state does not hold.
pub open spec fn count_missing(local: Seq<RemoteSdkView>, remote: Seq<RemoteSdkView>, n: int) -> int
    decreases n,
{
    if n <= 0 {
        0
    } else {
        count_missing(local, remote, n - 1) + if find_sdk(local, remote[n - 1].local_filename())
            < 0 {
            1int
        } else {
            0int
        }
    }
}

/// The number of the first `n` entries of `remote` of which the state
/// holds an entry that says something else.
pub open spec fn count_different(local: Seq<RemoteSdkView>, remote: Seq<RemoteSdkView>, n: int) -> int
    decreases n,
{
    if n <= 0 {
        0
    } else {
        count_different(local, remote, n - 1) + if find_sdk(
            local,
            remote[n - 1].local_filename(),
        ) >= 0 && local[find_sdk(local, remote[n - 1].local_filename())] != remote[n - 1] {
            1int
        } else {
            0int
        }
    }
}

impl SyncStatus {
    /// Creates a status from its numbers.
    pub fn new(remote_total: u32, missing: u32, different: u32, revision: u64, offline: bool) -> (r:
        SyncStatus)
        ensures
            r.spec_remote_total() == remote_total,
            r.spec_missing() == missing,
            r.spec_different() == different,
            r.spec_revision() == revision,
            r.spec_is_offline() == offline,
    {
        SyncStatus { remote_total, missing, different, revision, offline }
    }

    /// The number of SDKs that the bucket lists.
    pub closed spec fn spec_remote_total(&self) -> u32 {
        self.remote_total
    }

    /// The number of listed SDKs that the stash does not hold.
    pub closed spec fn spec_missing(&self) -> u32 {
        self.missing
    }

    /// The number of listed SDKs of which the stash holds another
    /// version.
    pub closed spec fn spec_different(&self) -> u32 {
        self.different
    }

    /// The revision of the stash.
    pub closed spec fn spec_revision(&self) -> u64 {
        self.revision
    }

    /// Whether the bucket could not be reached.
    pub closed spec fn spec_is_offline(&self) -> bool {
        self.offline
    }

    /// The number of SDKs behind upstream.
    pub open spec fn spec_lag(&self) -> u32 {
        cap_u32(self.spec_missing() + self.spec_different())
    }

    /// Whether the sync counts as healthy: offline, or fewer than a
    /// tenth of the listed SDKs behind upstream.
    pub open spec fn spec_is_healthy(&self) -> bool {
        self.spec_is_offline() || self.spec_lag() * 10 < self.spec_remote_total()
    }

    /// The number of SDKs that the bucket lists.
    pub fn remote_total(&self) -> (r: u32)
        ensures
            r == self.spec_remote_total(),
    {
        self.remote_total
    }

    /// Indicates that the server is running offline (no S3 access)
    pub fn is_offline(&self) -> (r: bool)
        ensures
            r == self.spec_is_offline(),
    {
        self.offline
    }

    /// Returns the lag (number of SDKs behind upstream)
    pub fn lag(&self) -> (r: u32)
        ensures
            r == self.spec_lag(),
    {
        let sum: u64 = self.missing as u64 + self.different as u64;
        if sum < u32::MAX as u64 {
            sum as u32
        } else {
            u32::MAX
        }
    }

    /// Returns true if the local sync is still considered healthy
    pub fn is_healthy(&self) -> (r: bool)
        ensures
            r == self.spec_is_healthy(),
    {
        if self.offline {
            true
        } else {
            (self.lag() as u64) * 10 < self.remote_total as u64
        }
    }

    /// Returns the revision of the stash
    pub fn revision(&self) -> (r: u64)
        ensures
            r == self.spec_revision(),
    {
        self.revision
    }
}

/// The SDKs of the state that fit the one that is asked for, in the
/// order of the state.
pub open spec fn fitting_infos(sdks: Seq<RemoteSdkView>, wanted: SdkInfoView) -> Seq<SdkInfoView>
    decreases sdks.len(),
{
    if sdks.len() == 0 {
        Seq::empty()
    } else if spec_fuzzy_match(sdks.last().info, wanted) is Some {
        fitting_infos(sdks.drop_last(), wanted).push(sdks.last().info)
    } else {
        fitting_infos(sdks.drop_last(), wanted)
    }
}

/// Whether `result` is the list of the SDKs of the state that fit the
/// id that is asked for: it holds each SDK that fits as often as the
/// state holds it, the SDK that fits best first, and no SDK where the
/// id cannot be read.
pub open spec fn is_fuzzy_match_of(
    result: Seq<SdkInfoView>,
    sdks: Seq<RemoteSdkView>,
    sdk_id: Seq<char>,
) -> bool {
    match spec_from_filename(sdk_id) {
        Some(wanted) => sorted_by(result, fuzzy_order(wanted)) && result.to_multiset()
            == fitting_infos(sdks, wanted).to_multiset(),
        None => result.len() == 0,
    }
}

/// The views of the SDKs of `v`.
pub open spec fn infos_view(v: Seq<SdkInfo>) -> Seq<SdkInfoView> {
    Seq::new(v.len(), |i: int| v[i]@)
}

impl SdkSyncState {
    /// Checks the state against a listing of the bucket, or against
    /// none where the bucket could not be reached: how many SDKs the
    /// bucket lists, how many of them the stash does not hold, and of
    /// how many it holds another version. Each number stops at the
    /// greatest that 32 bits hold.
    pub fn sync_status(&self, listing: Option<&Vec<RemoteSdk>>) -> (r: SyncStatus)
        ensures
            r.spec_revision() == self@.revision,
            match listing {
                Some(l) => {
                    let remote = spec_remote_state(sdks_view(l@));
                    &&& !r.spec_is_offline()
                    &&& r.spec_remote_total() == cap_u32(remote.len() as int)
                    &&& r.spec_missing() == cap_u32(
                        count_missing(self@.sdks, remote, remote.len() as int),
                    )
                    &&& r.spec_different() == cap_u32(
                        count_different(self@.sdks, remote, remote.len() as int),
                    )
                },
                None => r.spec_is_offline() && r.spec_remote_total() == 0 && r.spec_missing() == 0
                    && r.spec_different() == 0,
            },
    {
        let listing = match listing {
            Some(l) => l,
            None => {
                return SyncStatus {
                    remote_total: 0,
                    missing: 0,
                    different: 0,
                    revision: self.revision(),
                    offline: true,
                };
            },
        };
        let remote = SdkSyncState::from_parts(listing, 0);
        let ghost local = self@.sdks;
        let ghost rview = remote@.sdks;
        let mut remote_total: u32 = 0;
        let mut missing: u32 = 0;
        let mut different: u32 = 0;
        let mut i: usize = 0;
        while i < remote.sdks.len()
            invariant
                0 <= i <= remote.sdks@.len(),
                local == self@.sdks,
                rview == remote@.sdks,
                rview == sdks_view(remote.sdks@),
                remote_total == cap_u32(i as int),
                missing == cap_u32(count_missing(local, rview, i as int)),
                different == cap_u32(count_different(local, rview, i as int)),
                count_missing(local, rview, i as int) >= 0,
                count_different(local, rview, i as int) >= 0,
            decreases remote.sdks@.len() - i,
        {
            let sdk = &remote.sdks[i];
            assert(rview[i as int] == sdk@);
            match self.get_sdk(sdk.local_filename()) {
                Some(local_sdk) => {
                    if !local_sdk.same_as(sdk) && different < u32::MAX {
                        different += 1;
                    }
                },
                None => {
                    if missing < u32::MAX {
                        missing += 1;
                    }
                },
            }
            if remote_total < u32::MAX {
                remote_total += 1;
            }
            i += 1;
        }
        SyncStatus { remote_total, missing, different, revision: self.revision(), offline: false }
    }

    /// Returns a list of all synched SDKs
    pub fn list_sdks(&self) -> (r: Vec<SdkInfo>)
        ensures
            infos_view(r@) == Seq::new(self@.sdks.len(), |i: int| self@.sdks[i].info),
    {
        let mut out: Vec<SdkInfo> = Vec::new();
        let mut i: usize = 0;
        let ghost want = Seq::new(self@.sdks.len(), |i: int| self@.sdks[i].info);
        while i < self.sdks.len()
            invariant
                0 <= i <= self.sdks@.len(),
                want == Seq::new(self@.sdks.len(), |i: int| self@.sdks[i].info),
                infos_view(out@) == want.take(i as int),
            decreases self.sdks@.len() - i,
        {
            let ghost before = infos_view(out@);
            let info = self.sdks[i].info().clone();
            assert(info@ == self@.sdks[i as int].info);
            out.push(info);
            assert(infos_view(out@) =~= before.push(info@));
            assert(want.take(i + 1) =~= want.take(i as int).push(want[i as int]));
            i += 1;
        }
        assert(want.take(i as int) =~= want);
        out
    }

    /// Given an SDK id this returns the SDKs of the stash that fit it,
    /// best first.
    pub fn fuzzy_match_sdk_id(&self, sdk_id: &str) -> (r: Vec<SdkInfo>)
        ensures
            is_fuzzy_match_of(infos_view(r@), self@.sdks, sdk_id@),
    {
        let mut out: Vec<SdkInfo> = Vec::new();
        let wanted = match SdkInfo::from_filename(sdk_id) {
            Some(wanted) => wanted,
            None => {
                return out;
            },
        };
        let ghost views = self@.sdks;
        let mut i: usize = 0;
        proof {
            assert(views.take(0) =~= Seq::<RemoteSdkView>::empty());
            assert(infos_view(out@) =~= Seq::<SdkInfoView>::empty());
        }
        while i < self.sdks.len()
            invariant
                0 <= i <= self.sdks@.len(),
                views == self@.sdks,
                views == sdks_view(self.sdks@),
                sorted_by(infos_view(out@), fuzzy_order(wanted@)),
                infos_view(out@).to_multiset() == fitting_infos(
                    views.take(i as int),
                    wanted@,
                ).to_multiset(),
            decreases self.sdks@.len() - i,
        {
            proof {
                assert(views.take(i + 1).drop_last() =~= views.take(i as int));
                assert(views.take(i + 1).last() == self.sdks@[i as int]@);
                vstd::seq_lib::to_multiset_build(
                    fitting_infos(views.take(i as int), wanted@),
                    views[i as int].info,
                );
            }
            if self.sdks[i].info().get_fuzzy_match(&wanted).is_some() {
                insert_sorted(&mut out, self.sdks[i].info().clone(), &wanted);
            }
            i += 1;
        }
        assert(views.take(i as int) =~= views);
        out
    }
}

/// Puts an SDK into a list of SDKs that is in the order of the SDKs
/// that fit, at its place in that order.
fn insert_sorted(out: &mut Vec<SdkInfo>, info: SdkInfo, wanted: &SdkInfo)
    requires
        sorted_by(infos_view(old(out)@), fuzzy_order(wanted@)),
    ensures
        sorted_by(infos_view(final(out)@), fuzzy_order(wanted@)),
        infos_view(final(out)@).to_multiset() == infos_view(old(out)@).to_multiset().insert(info@),
{
    let ghost before = infos_view(out@);
    let ghost leq = fuzzy_order(wanted@);
    let mut p: usize = 0;
    while p < out.len() && out[p].fits_before(&info, wanted)
        invariant
            0 <= p <= out@.len(),
            before == infos_view(out@),
            out@ == old(out)@,
            forall|k: int| 0 <= k < p ==> fits_before(wanted@, #[trigger] before[k], info@),
        decreases out@.len() - p,
    {
        assert(before[p as int] == out@[p as int]@);
        p += 1;
    }
    let ghost view = info@;
    out.insert(p, info);
    proof {
        let after = infos_view(out@);
        assert(after =~= before.insert(p as int, view));
        vstd::seq_lib::to_multiset_insert(before, p as int, view);
        lemma_fuzzy_order_total(wanted@);
        if p < before.len() {
            assert(before[p as int] == old(out)@[p as int]@);
            assert(!fits_before(wanted@, before[p as int], view));
            assert(leq(view, before[p as int]) || leq(before[p as int], view));
        }
        assert forall|a: int, b: int| 0 <= a < b < after.len() implies #[trigger] leq(
            after[a],
            after[b],
        ) by {
            if b < p {
                assert(leq(before[a], before[b]));
            } else if b == p {
                assert(fits_before(wanted@, before[a], view));
            } else if a < p {
                assert(leq(before[a], before[b - 1]));
            } else if a == p {
                if b - 1 > p {
                    assert(leq(before[p as int], before[b - 1]));
                }
                assert(leq(view, before[p as int]));
                assert(leq(view, before[p as int]) && leq(before[p as int], before[b - 1])
                    ==> leq(view, before[b - 1])) by {
                    if b - 1 == p {
                    }
                }
            } else {
                assert(leq(before[a - 1], before[b - 1]));
            }
        }
    }
}

/// The multiset of the SDKs of the state that fit the one that is
/// asked for, built entry by entry.
pub open spec fn add_fitting(wanted: SdkInfoView) -> spec_fn(
    Multiset<SdkInfoView>,
    RemoteSdkView,
) -> Multiset<SdkInfoView> {
    |acc: Multiset<SdkInfoView>, sdk: RemoteSdkView|
        if spec_fuzzy_match(sdk.info, wanted) is Some {
            acc.insert(sdk.info)
        } else {
            acc
        }
}

/// The SDKs that fit, as a multiset, are what adding them entry by
/// entry gives.
proof fn lemma_fitting_infos_fold(sdks: Seq<RemoteSdkView>, wanted: SdkInfoView)
    ensures
        fitting_infos(sdks, wanted).to_multiset() == sdks.fold_left(
            Multiset::<SdkInfoView>::empty(),
            add_fitting(wanted),
        ),
    decreases sdks.len(),
{
    if sdks.len() == 0 {
        broadcast use vstd::seq_lib::group_to_multiset_ensures;

        assert(fitting_infos(sdks, wanted).to_multiset() =~= Multiset::<SdkInfoView>::empty());
    } else {
        lemma_fitting_infos_fold(sdks.drop_last(), wanted);
        vstd::seq_lib::to_multiset_build(fitting_infos(sdks.drop_last(), wanted), sdks.last().info);
    }
}

/// The list of the SDKs that fit an id depends only on which SDKs the
/// state holds and on the id: two states that hold the same entries, in
/// whatever order, give the same list.
pub proof fn lemma_fuzzy_match_depends_on_set(
    first: Seq<RemoteSdkView>,
    second: Seq<RemoteSdkView>,
    sdk_id: Seq<char>,
    r1: Seq<SdkInfoView>,
    r2: Seq<SdkInfoView>,
)
    requires
        first.to_multiset() == second.to_multiset(),
        is_fuzzy_match_of(r1, first, sdk_id),
        is_fuzzy_match_of(r2, second, sdk_id),
    ensures
        r1 == r2,
{
    match spec_from_filename(sdk_id) {
        Some(wanted) => {
            let f = add_fitting(wanted);
            assert forall|x: RemoteSdkView, y: RemoteSdkView, v: Multiset<SdkInfoView>| #[trigger]
                f(f(v, x), y) == f(f(v, y), x) by {
                assert(f(f(v, x), y) =~= f(f(v, y), x));
            }
            vstd::seq_lib::lemma_fold_left_permutation(
                first,
                second,
                f,
                Multiset::<SdkInfoView>::empty(),
            );
            lemma_fitting_infos_fold(first, wanted);
            lemma_fitting_infos_fold(second, wanted);
            lemma_fuzzy_order_total(wanted);
            vstd::seq_lib::lemma_sorted_unique(r1, r2, fuzzy_order(wanted));
        },
        None => {
            assert(r1 =~= r2);
        },
    }
}

/// The entry with the local filename `key`.
pub open spec fn lookup_sdk(sdks: Seq<RemoteSdkView>, key: Seq<char>) -> Option<RemoteSdkView> {
    if find_sdk(sdks, key) >= 0 {
        Some(sdks[find_sdk(sdks, key)])
    } else {
        None
    }
}

/// An entry that is put into the state is found under its local
/// filename; all other entries stay as they are.
pub proof fn lemma_upsert(sdks: Seq<RemoteSdkView>, sdk: RemoteSdkView, key: Seq<char>)
    requires
        unique_keys(sdks),
    ensures
        unique_keys(upsert(sdks, sdk)),
        lookup_sdk(upsert(sdks, sdk), key) == if key == sdk.local_filename() {
            Some(sdk)
        } else {
            lookup_sdk(sdks, key)
        },
{
    let after = upsert(sdks, sdk);
    let i = find_sdk(sdks, sdk.local_filename());
    lemma_find_sdk(sdks, sdk.local_filename());
    lemma_find_sdk(sdks, key);
    lemma_find_sdk(after, key);
    assert forall|a: int, b: int| 0 <= a < b < after.len() implies (
    #[trigger] after[a]).local_filename() != (#[trigger] after[b]).local_filename() by {
        if i >= 0 {
            assert(sdks[a].local_filename() != sdks[b].local_filename());
        } else if b == sdks.len() {
            assert(sdks[a] == after[a]);
        } else {
            assert(sdks[a].local_filename() != sdks[b].local_filename());
        }
    }
    let j = find_sdk(after, key);
    if key == sdk.local_filename() {
        if i >= 0 {
            assert(after[i].local_filename() == key);
            if j != i {
                assert(after[j].local_filename() == after[i].local_filename());
            }
        } else {
            assert(after[sdks.len() as int].local_filename() == key);
            if j != sdks.len() {
                assert(sdks[j].local_filename() == key);
            }
        }
    } else {
        let k = find_sdk(sdks, key);
        if k >= 0 {
            assert(after[k] == sdks[k]);
            assert(after[k].local_filename() == key);
            if j != k {
                assert(sdks[j] == after[j]);
            }
        } else if j >= 0 {
            assert(after[j].local_filename() == key);
            if i < 0 && j == sdks.len() {
            } else {
                assert(sdks[j].local_filename() == key);
            }
        }
    }
}

/// An entry that is taken out of the state is no longer found; all
/// other entries stay as they are.
pub proof fn lemma_without(sdks: Seq<RemoteSdkView>, gone: Seq<char>, key: Seq<char>)
    requires
        unique_keys(sdks),
    ensures
        unique_keys(without(sdks, gone)),
        lookup_sdk(without(sdks, gone), key) == if key == gone {
            None
        } else {
            lookup_sdk(sdks, key)
        },
{
    let after = without(sdks, gone);
    let i = find_sdk(sdks, gone);
    lemma_find_sdk(sdks, gone);
    lemma_find_sdk(sdks, key);
    lemma_find_sdk(after, key);
    if i >= 0 {
        assert forall|a: int| 0 <= a < after.len() implies #[trigger] after[a] == sdks[if a < i {
            a
        } else {
            a + 1
        }] by {}
        assert forall|a: int, b: int| 0 <= a < b < after.len() implies (
        #[trigger] after[a]).local_filename() != (#[trigger] after[b]).local_filename() by {
            let a0 = if a < i {
                a
            } else {
                a + 1
            };
            let b0 = if b < i {
                b
            } else {
                b + 1
            };
            assert(sdks[a0].local_filename() != sdks[b0].local_filename());
        }
        let j = find_sdk(after, key);
        if j >= 0 {
            let j0 = if j < i {
                j
            } else {
                j + 1
            };
            assert(after[j] == sdks[j0]);
            assert(sdks[j0].local_filename() == key);
            if key == gone {
                if j0 < i {
                    assert(sdks[j0].local_filename() != sdks[i].local_filename());
                } else {
                    assert(sdks[i].local_filename() != sdks[j0].local_filename());
                }
            } else {
                let k = find_sdk(sdks, key);
                if k != j0 {
                    if k < j0 {
                        assert(sdks[k].local_filename() != sdks[j0].local_filename());
                    } else {
                        assert(sdks[j0].local_filename() != sdks[k].local_filename());
                    }
                }
            }
        } else if key != gone {
            let k = find_sdk(sdks, key);
            if k >= 0 {
                let k1 = if k < i {
                    k
                } else {
                    k - 1
                };
                assert(after[k1] == sdks[k]);
                assert(after[k1].local_filename() == key);
            }
        }
    }
}

/// The state of a listing holds no local filename twice.
pub proof fn lemma_remote_state_unique(listing: Seq<RemoteSdkView>)
    ensures
        unique_keys(spec_remote_state(listing)),
    decreases listing.len(),
{
    if listing.len() > 0 {
        lemma_remote_state_unique(listing.drop_last());
        lemma_upsert(
            spec_remote_state(listing.drop_last()),
            listing.last(),
            listing.last().local_filename(),
        );
    }
}

/// Steps done one after the other: first those of `a`, then those of
/// `b`.
pub proof fn lemma_run_concat(state: SyncStateView, a: Seq<SyncActionView>, b: Seq<SyncActionView>)
    ensures
        spec_run(state, a + b) == spec_run(spec_run(state, a), b),
    decreases b.len(),
{
    if b.len() == 0 {
        assert(a + b =~= a);
    } else {
        lemma_run_concat(state, a, b.drop_last());
        assert((a + b).drop_last() =~= a + b.drop_last());
        assert((a + b).last() == b.last());
    }
}

/// In a state without a local filename twice, every entry is found
/// under its local filename.
pub proof fn lemma_lookup_own(sdks: Seq<RemoteSdkView>, j: int)
    requires
        unique_keys(sdks),
        0 <= j < sdks.len(),
    ensures
        lookup_sdk(sdks, sdks[j].local_filename()) == Some(sdks[j]),
{
    lemma_find_sdk(sdks, sdks[j].local_filename());
    let i = find_sdk(sdks, sdks[j].local_filename());
    if i < j {
        assert(sdks[i].local_filename() != sdks[j].local_filename());
    }
}

/// After the downloads for the first `n` entries of `remote` are done,
/// the state holds those entries, and all else as before.
pub proof fn lemma_run_downloads(
    state: SyncStateView,
    remote: Seq<RemoteSdkView>,
    n: int,
    key: Seq<char>,
)
    requires
        unique_keys(state.sdks),
        unique_keys(remote),
        0 <= n <= remote.len(),
    ensures
        unique_keys(spec_run(state, downloads(state.sdks, remote.take(n))).sdks),
        lookup_sdk(spec_run(state, downloads(state.sdks, remote.take(n))).sdks, key) == if find_sdk(
            remote.take(n),
            key,
        ) >= 0 {
            lookup_sdk(remote.take(n), key)
        } else {
            lookup_sdk(state.sdks, key)
        },
    decreases n,
{
    if n == 0 {
        assert(remote.take(0) =~= Seq::<RemoteSdkView>::empty());
    } else {
        let head = remote.take(n - 1);
        let r = remote[n - 1];
        let before = spec_run(state, downloads(state.sdks, head));
        assert(remote.take(n).drop_last() =~= head);
        assert(remote.take(n).last() == r);
        lemma_run_downloads(state, remote, n - 1, key);
        lemma_run_downloads(state, remote, n - 1, r.local_filename());
        lemma_find_sdk(head, r.local_filename());
        lemma_find_sdk(head, key);
        lemma_find_sdk(remote.take(n), key);
        // the key of `r` is not among the earlier entries
        if find_sdk(head, r.local_filename()) >= 0 {
            let i = find_sdk(head, r.local_filename());
            assert(head[i] == remote[i]);
            assert(remote[i].local_filename() != remote[n - 1].local_filename());
        }
        assert(lookup_sdk(before.sdks, r.local_filename()) == lookup_sdk(
            state.sdks,
            r.local_filename(),
        ));
        lemma_upsert(before.sdks, r, key);
        if needs_update(state.sdks, r) {
            assert(needs_update(before.sdks, r));
            let actions = downloads(state.sdks, head).push(SyncActionView::Download(r));
            assert(actions.drop_last() =~= downloads(state.sdks, head));
        } else {
            assert(!needs_update(before.sdks, r));
        }
        // what is found among the first `n` entries
        let j = find_sdk(remote.take(n), key);
        if key == r.local_filename() {
            assert(remote.take(n)[n - 1].local_filename() == key);
            if j != n - 1 {
                assert(remote.take(n)[j] == remote[j]);
                assert(remote[j].local_filename() != remote[n - 1].local_filename());
            }
        } else {
            let k = find_sdk(head, key);
            if k >= 0 {
                assert(remote.take(n)[k] == head[k]);
                if j != k {
                    assert(remote.take(n)[j] == remote[j]);
                    assert(head[k] == remote[k]);
                    if j < k {
                        assert(remote[j].local_filename() != remote[k].local_filename());
                    } else {
                        assert(remote[k].local_filename() != remote[j].local_filename());
                    }
                }
            } else if j >= 0 {
                assert(remote.take(n)[j].local_filename() == key);
                assert(head[j] == remote.take(n)[j]);
            }
        }
    }
}

/// After the deletions for the first `n` entries of `local` are done,
/// the state no longer holds those of them that `remote` does not
/// hold, and all else as before.
pub proof fn lemma_run_deletions(
    state: SyncStateView,
    local: Seq<RemoteSdkView>,
    remote: Seq<RemoteSdkView>,
    n: int,
    key: Seq<char>,
)
    requires
        unique_keys(state.sdks),
        unique_keys(local),
        0 <= n <= local.len(),
    ensures
        unique_keys(spec_run(state, deletions(local, remote, n)).sdks),
        lookup_sdk(spec_run(state, deletions(local, remote, n)).sdks, key) == if find_sdk(
            local.take(n),
            key,
        ) >= 0 && find_sdk(remote, key) < 0 {
            None
        } else {
            lookup_sdk(state.sdks, key)
        },
    decreases n,
{
    if n == 0 {
        assert(local.take(0) =~= Seq::<RemoteSdkView>::empty());
    } else {
        let l = local[n - 1];
        let before = spec_run(state, deletions(local, remote, n - 1));
        assert(local.take(n).drop_last() =~= local.take(n - 1));
        assert(local.take(n).last() == l);
        lemma_run_deletions(state, local, remote, n - 1, key);
        lemma_find_sdk(local.take(n - 1), key);
        lemma_find_sdk(local.take(n), key);
        lemma_without(before.sdks, l.local_filename(), key);
        if find_sdk(remote, l.local_filename()) < 0 {
            let actions = deletions(local, remote, n - 1).push(SyncActionView::Delete(l));
            assert(actions.drop_last() =~= deletions(local, remote, n - 1));
        }
        let j = find_sdk(local.take(n), key);
        let k = find_sdk(local.take(n - 1), key);
        if key == l.local_filename() {
            assert(local.take(n)[n - 1].local_filename() == key);
        } else if j >= 0 {
            assert(local.take(n)[j].local_filename() == key);
            assert(local.take(n - 1)[j] == local.take(n)[j]);
        } else if k >= 0 {
            assert(local.take(n)[k] == local.take(n - 1)[k]);
        }
    }
}

/// No download is planned where the state holds every entry of
/// `remote` as it is.
pub proof fn lemma_no_downloads(local: Seq<RemoteSdkView>, remote: Seq<RemoteSdkView>)
    requires
        forall|j: int| 0 <= j < remote.len() ==> !needs_update(local, #[trigger] remote[j]),
    ensures
        downloads(local, remote).len() == 0,
    decreases remote.len(),
{
    if remote.len() > 0 {
        assert(!needs_update(local, remote[remote.len() - 1]));
        assert forall|j: int| 0 <= j < remote.drop_last().len() implies !needs_update(
            local,
            #[trigger] remote.drop_last()[j],
        ) by {
            assert(remote.drop_last()[j] == remote[j]);
        }
        lemma_no_downloads(local, remote.drop_last());
    }
}

/// No deletion is planned where `remote` holds the local filename of
/// every entry of the state.
pub proof fn lemma_no_deletions(local: Seq<RemoteSdkView>, remote: Seq<RemoteSdkView>, n: int)
    requires
        0 <= n <= local.len(),
        forall|j: int|
            0 <= j < local.len() ==> find_sdk(remote, (#[trigger] local[j]).local_filename())
                >= 0,
    ensures
        deletions(local, remote, n).len() == 0,
    decreases n,
{
    if n > 0 {
        assert(find_sdk(remote, local[n - 1].local_filename()) >= 0);
        lemma_no_deletions(local, remote, n - 1);
    }
}

/// A sync that follows a sync has nothing to do: once the steps that
/// bring the stash in line with a listing are done, the plan for the
/// same listing is empty, so that a second sync leaves the entries and
/// the revision as they are.
pub proof fn lemma_sync_is_idempotent(state: SyncStateView, listing: Seq<RemoteSdkView>)
    requires
        unique_keys(state.sdks),
    ensures
        spec_plan(spec_run(state, spec_plan(state.sdks, listing)).sdks, listing).len() == 0,
        spec_run(
            spec_run(state, spec_plan(state.sdks, listing)),
            spec_plan(spec_run(state, spec_plan(state.sdks, listing)).sdks, listing),
        ) == spec_run(state, spec_plan(state.sdks, listing)),
{
    let remote = spec_remote_state(listing);
    let local = state.sdks;
    let first = downloads(local, remote);
    let second = deletions(local, remote, local.len() as int);
    let mid = spec_run(state, first);
    let end = spec_run(state, spec_plan(local, listing));
    lemma_remote_state_unique(listing);
    lemma_run_concat(state, first, second);
    assert(remote.take(remote.len() as int) =~= remote);
    assert(local.take(local.len() as int) =~= local);
    lemma_run_downloads(state, remote, remote.len() as int, local[0].local_filename());
    lemma_run_deletions(mid, local, remote, local.len() as int, local[0].local_filename());
    assert forall|j: int| 0 <= j < remote.len() implies !needs_update(
        end.sdks,
        #[trigger] remote[j],
    ) by {
        let key = remote[j].local_filename();
        lemma_run_downloads(state, remote, remote.len() as int, key);
        lemma_run_deletions(mid, local, remote, local.len() as int, key);
        lemma_lookup_own(remote, j);
    }
    assert forall|j: int| 0 <= j < end.sdks.len() implies find_sdk(
        remote,
        (#[trigger] end.sdks[j]).local_filename(),
    ) >= 0 by {
        let key = end.sdks[j].local_filename();
        lemma_run_downloads(state, remote, remote.len() as int, key);
        lemma_run_deletions(mid, local, remote, local.len() as int, key);
        lemma_lookup_own(end.sdks, j);
        lemma_find_sdk(local, key);
    }
    lemma_no_downloads(end.sdks, remote);
    lemma_no_deletions(end.sdks, remote, end.sdks.len() as int);
    assert(spec_plan(end.sdks, listing) =~= Seq::<SyncActionView>::empty());
}

impl SdkSyncState {
    /// The name of the memdb file of an SDK that the stash holds.
    ///
    /// Fails with `UnknownSdk` where the state holds no entry under the
    /// name of the memdb file of the SDK.
    pub fn get_memdb_filename(&self, info: &SdkInfo) -> (r: Result<String, ErrorKind>)
        ensures
            match r {
                Ok(filename) => filename@ == spec_memdb_filename(info@) && find_sdk(
                    self@.sdks,
                    spec_memdb_filename(info@),
                ) >= 0,
                Err(e) => e == ErrorKind::UnknownSdk && find_sdk(
                    self@.sdks,
                    spec_memdb_filename(info@),
                ) == -1,
            },
    {
        let filename = info.memdb_filename();
        if self.get_sdk(filename.as_str()).is_some() {
            Ok(filename)
        } else {
            Err(ErrorKind::UnknownSdk)
        }
    }

    /// The name of the memdb file of the SDK with the given id, where
    /// the stash holds it.
    ///
    /// Fails with `UnknownSdk` where the id names no SDK or the state
    /// does not hold the SDK.
    pub fn get_memdb_filename_from_sdk_id(&self, sdk_id: &str) -> (r: Result<String, ErrorKind>)
        ensures
            match r {
                Ok(filename) => spec_from_filename(sdk_id@) matches Some(info) && filename@
                    == spec_memdb_filename(info) && find_sdk(
                    self@.sdks,
                    spec_memdb_filename(info),
                ) >= 0,
                Err(e) => e == ErrorKind::UnknownSdk && (spec_from_filename(sdk_id@) matches Some(
                    info,
                ) ==> find_sdk(self@.sdks, spec_memdb_filename(info)) == -1),
            },
    {
        match SdkInfo::from_filename(sdk_id) {
            Some(info) => self.get_memdb_filename(&info),
            None => Err(ErrorKind::UnknownSdk),
        }
    }
}

} // verus!
