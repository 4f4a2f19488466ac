use vstd::prelude::*;
use vstd::string::*;

use crate::error::AppError;
use crate::nav::distinct_names;
use crate::object::{__S3Object, create_folder_key, key_of, clean_folder_name};
use crate::text::{after_last_slash, last_segment, same_text, strip_both, strip_start, trim_char, trim_start_char};

verus! {

/// Where a listing is in its fetch cycle.
#[derive(Debug, Clone, Copy, PartialEq, Eq, Structural)]
pub enum ListingState {
    /// No fetch was started yet.
    Idle,
    /// A fetch is in flight.
    Loading,
    /// The last fetch succeeded; its objects are shown.
    Loaded,
    /// The last fetch failed.
    Errored,
}

/// The keys of a sequence of entries.
pub open spec fn keys(objects: Seq<__S3Object>) -> Set<Seq<char>> {
    Set::new(|k: Seq<char>| exists|i: int| 0 <= i < objects.len() && key_of(objects[i]) == k)
}

/// The texts of a sequence of strings.
pub open spec fn texts(v: Seq<String>) -> Seq<Seq<char>> {
    v.map_values(|s: String| s@)
}

/// What a listing holds, as values.
#[verifier::ext_equal]
pub struct ListingModel {
    pub state: ListingState,
    /// The last listing that was fetched successfully: folders first, then files.
    pub objects: Seq<__S3Object>,
    /// The keys of the checked entries.
    pub selection: Set<Seq<char>>,
    /// The error of the last fetch, when it failed.
    pub error: Option<AppError>,
    /// How many fetches were started; the ticket of the latest one.
    pub generation: nat,
    pub creating_folder: bool,
    pub deleting_objects: bool,
}

/// A fetch starts: loading, no error, nothing checked, a new ticket.
pub open spec fn begun(m: ListingModel) -> ListingModel {
    ListingModel {
        state: ListingState::Loading,
        error: None,
        selection: Set::empty(),
        generation: m.generation + 1,
        ..m
    }
}

/// The result of the fetch with `ticket` arrives. Only the result of the
/// latest fetch, while it is in flight, is applied: success replaces the
/// entries and clears the checks; failure keeps the last good entries and
/// records the error. Any other result is dropped.
pub open spec fn completed(
    m: ListingModel,
    ticket: nat,
    result: Result<Seq<__S3Object>, AppError>,
) -> ListingModel {
    if ticket != m.generation || m.state != ListingState::Loading {
        m
    } else {
        match result {
            Ok(objects) => ListingModel {
                state: ListingState::Loaded,
                objects,
                selection: Set::empty(),
                error: None,
                ..m
            },
            Err(e) => ListingModel { state: ListingState::Errored, error: Some(e), ..m },
        }
    }
}

/// The check of `key` flips, when the listing is loaded and holds `key`.
pub open spec fn toggled(m: ListingModel, key: Seq<char>) -> ListingModel {
    if m.state == ListingState::Loaded && keys(m.objects).contains(key) {
        if m.selection.contains(key) {
            ListingModel { selection: m.selection.remove(key), ..m }
        } else {
            ListingModel { selection: m.selection.insert(key), ..m }
        }
    } else {
        m
    }
}

/// Every loaded entry is checked, when the listing is loaded.
pub open spec fn all_selected(m: ListingModel) -> ListingModel {
    if m.state == ListingState::Loaded {
        ListingModel { selection: m.selection.union(keys(m.objects)), ..m }
    } else {
        m
    }
}

/// Nothing is checked.
pub open spec fn cleared(m: ListingModel) -> ListingModel {
    ListingModel { selection: Set::empty(), ..m }
}

/// The checked folders, in listing order.
pub open spec fn checked_folders(objects: Seq<__S3Object>, sel: Set<Seq<char>>) -> Seq<Seq<char>>
    decreases objects.len(),
{
    if objects.len() == 0 {
        seq![]
    } else {
        let rest = checked_folders(objects.drop_last(), sel);
        match objects.last() {
            __S3Object::Folder(k) => if sel.contains(k@) {
                rest.push(k@)
            } else {
                rest
            },
            _ => rest,
        }
    }
}

/// The checked files, in listing order.
pub open spec fn checked_files(objects: Seq<__S3Object>, sel: Set<Seq<char>>) -> Seq<Seq<char>>
    decreases objects.len(),
{
    if objects.len() == 0 {
        seq![]
    } else {
        let rest = checked_files(objects.drop_last(), sel);
        match objects.last() {
            __S3Object::File { key, .. } => if sel.contains(key@) {
                rest.push(key@)
            } else {
                rest
            },
            _ => rest,
        }
    }
}

/// The messages of the failed results, each followed by `;` and a newline.
pub open spec fn failure_text(results: Seq<Result<(), AppError>>) -> Seq<char>
    decreases results.len(),
{
    if results.len() == 0 {
        seq![]
    } else {
        let rest = failure_text(results.drop_last());
        match results.last() {
            Err(e) => rest + e.message@ + ";\n"@,
            Ok(_) => rest,
        }
    }
}

/// How many single deletions of one batch may be in flight at once.
pub const DELETE_FAN_OUT: usize = 8;

/// Every result is a success.
pub open spec fn all_ok(results: Seq<Result<(), AppError>>) -> bool {
    forall|i: int| 0 <= i < results.len() ==> results[i] is Ok
}

/// One error for a batch of deletions: none when all succeeded, otherwise an
/// error (status 400) whose message joins the messages of all failures, each
/// followed by `;` and a newline. No failure is skipped.
pub fn aggregate_delete_results(results: &Vec<Result<(), AppError>>) -> (r: Result<(), AppError>)
    ensures
        r is Ok <==> all_ok(results@),
        r matches Err(e) ==> e.status == 400 && e.message@ == failure_text(results@),
{
    let mut message = String::new();
    let mut failed = false;
    let mut i: usize = 0;
    while i < results.len()
        invariant
            i <= results@.len(),
            message@ == failure_text(results@.subrange(0, i as int)),
            failed == !all_ok(results@.subrange(0, i as int)),
        decreases results@.len() - i,
    {
        let ghost before = results@.subrange(0, i as int);
        let ghost after = results@.subrange(0, i + 1);
        assert(after.drop_last() =~= before);
        match &results[i] {
            Err(e) => {
                message.append(e.message.as_str());
                message.append(";\n");
                failed = true;
                assert(!(after[i as int] is Ok));
            },
            Ok(_) => {
                assert forall|j: int| 0 <= j < after.len() && all_ok(before) implies after[j] is Ok by {
                    if j < i {
                        assert(after[j] == before[j]);
                    }
                }
                assert forall|j: int| 0 <= j < before.len() && all_ok(after) implies before[j] is Ok by {
                    assert(after[j] == before[j]);
                }
            },
        }
        i = i + 1;
    }
    assert(results@.subrange(0, results@.len() as int) =~= results@);
    if failed {
        Err(AppError::message(message))
    } else {
        Ok(())
    }
}

/// A fetch that started before another never has its result applied once the
/// other has started, whether it arrives before or after the other's result.
pub proof fn late_result_is_dropped(
    m: ListingModel,
    first: Result<Seq<__S3Object>, AppError>,
    second: Result<Seq<__S3Object>, AppError>,
)
    ensures
        ({
            let a = begun(m);
            let b = begun(a);
            let c = completed(b, b.generation, second);
            &&& completed(b, a.generation, first) == b
            &&& completed(c, a.generation, first) == c
        }),
{
}

/// Checking everything and then clearing leaves nothing checked and the
/// entries as they were.
pub proof fn select_all_then_clear(m: ListingModel)
    ensures
        cleared(all_selected(m)).selection == Set::<Seq<char>>::empty(),
        cleared(all_selected(m)).objects == m.objects,
        cleared(all_selected(m)).state == m.state,
{
}

/// The keys to delete: checked folders and checked files, apart.
pub struct DeletePlan {
    pub folders: Vec<String>,
    pub files: Vec<String>,
}

/// The state of the listing of one prefix of a bucket: the fetch cycle, the
/// entries, and which of them are checked.
pub struct ListingView {
    prefix: String,
    bucket_name: String,
    state: ListingState,
    objects: Vec<__S3Object>,
    checked: Vec<String>,
    error: Option<AppError>,
    generation: u64,
    creating_folder: bool,
    deleting_objects: bool,
}

impl View for ListingView {
    type V = ListingModel;

    closed spec fn view(&self) -> ListingModel {
        ListingModel {
            state: self.state,
            objects: self.objects@,
            selection: texts(self.checked@).to_set(),
            error: self.error,
            generation: self.generation as nat,
            creating_folder: self.creating_folder,
            deleting_objects: self.deleting_objects,
        }
    }
}

proof fn lemma_remove_distinct(s: Seq<Seq<char>>, i: int)
    requires
        distinct_names(s),
        0 <= i < s.len(),
    ensures
        distinct_names(s.remove(i)),
        s.remove(i).to_set() == s.to_set().remove(s[i]),
{
    let r = s.remove(i);
    assert forall|a: int, b: int| 0 <= a < b < r.len() implies r[a] != r[b] by {
        let a0 = if a < i { a } else { a + 1 };
        let b0 = if b < i { b } else { b + 1 };
        assert(s[a0] != s[b0]);
    }
    assert forall|k: Seq<char>| r.to_set().contains(k) <==> s.to_set().remove(s[i]).contains(k) by {
        if r.contains(k) {
            let j = choose|j: int| 0 <= j < r.len() && r[j] == k;
            let j0 = if j < i { j } else { j + 1 };
            assert(s[j0] == k);
        }
        if s.to_set().remove(s[i]).contains(k) {
            let j = choose|j: int| 0 <= j < s.len() && s[j] == k;
            assert(j != i);
            let j1 = if j < i { j } else { j - 1 };
            assert(r[j1] == k);
        }
    }
    assert(r.to_set() =~= s.to_set().remove(s[i]));
}

proof fn lemma_push_distinct(s: Seq<Seq<char>>, k: Seq<char>)
    requires
        distinct_names(s),
        !s.contains(k),
    ensures
        distinct_names(s.push(k)),
        s.push(k).to_set() == s.to_set().insert(k),
{
    let r = s.push(k);
    assert forall|a: int, b: int| 0 <= a < b < r.len() implies r[a] != r[b] by {
        if b == s.len() {
            assert(r[a] == s[a]);
        } else {
            assert(r[a] == s[a] && r[b] == s[b]);
        }
    }
    assert forall|x: Seq<char>| r.to_set().contains(x) <==> s.to_set().insert(k).contains(x) by {
        if r.contains(x) {
            let j = choose|j: int| 0 <= j < r.len() && r[j] == x;
            if j < s.len() {
                assert(s[j] == x);
            }
        }
        if s.contains(x) {
            let j = choose|j: int| 0 <= j < s.len() && s[j] == x;
            assert(r[j] == x);
        }
        if x == k {
            assert(r[s.len() as int] == x);
        }
    }
    assert(r.to_set() =~= s.to_set().insert(k));
}

impl ListingView {
    /// Checked keys distinct, each the key of a loaded entry, and none
    /// unless the listing is loaded.
    pub closed spec fn wf(&self) -> bool {
        &&& distinct_names(texts(self.checked@))
        &&& self.state != ListingState::Loaded ==> self.checked@.len() == 0
        &&& forall|i: int| 0 <= i < self.checked@.len() ==> keys(self.objects@).contains(#[trigger] self.checked@[i]@)
    }

    pub closed spec fn prefix_text(&self) -> Seq<char> {
        self.prefix@
    }

    pub closed spec fn bucket_text(&self) -> Seq<char> {
        self.bucket_name@
    }

    /// A listing of `prefix` in the bucket `bucket_name` that was never fetched.
    pub fn new(prefix: String, bucket_name: String) -> (r: Self)
        ensures
            r.wf(),
            r.prefix_text() == prefix@,
            r.bucket_text() == bucket_name@,
            r@ == (ListingModel {
                state: ListingState::Idle,
                objects: Seq::empty(),
                selection: Set::empty(),
                error: None,
                generation: 0,
                creating_folder: false,
                deleting_objects: false,
            }),
    {
        let r = ListingView {
            prefix,
            bucket_name,
            state: ListingState::Idle,
            objects: Vec::new(),
            checked: Vec::new(),
            error: None,
            generation: 0,
            creating_folder: false,
            deleting_objects: false,
        };
        assert(texts(r.checked@).to_set() =~= Set::empty());
        r
    }

    /// The prefix this listing shows.
    pub fn prefix(&self) -> (r: &String)
        ensures
            r@ == self.prefix_text(),
    {
        &self.prefix
    }

    /// The name shown for this listing: the bucket's name at the root `/`,
    /// otherwise the last segment of the prefix.
    pub fn name(&self) -> (r: String)
        ensures
            r@ == if self.prefix_text() == "/"@ {
                self.bucket_text()
            } else {
                last_segment(strip_both(self.prefix_text(), '/'))
            },
    {
        if same_text(self.prefix.as_str(), "/") {
            self.bucket_name.clone()
        } else {
            let bare = trim_char(self.prefix.as_str(), '/');
            after_last_slash(bare.as_str())
        }
    }

    /// The prefix to ask the listing service for: without leading slashes.
    pub fn listing_prefix(&self) -> (r: String)
        ensures
            r@ == strip_start(self.prefix_text(), '/'),
    {
        trim_start_char(self.prefix.as_str(), '/')
    }

    pub fn state(&self) -> (r: ListingState)
        ensures
            r == self@.state,
    {
        self.state
    }

    /// The entries of the last successful fetch.
    pub fn objects(&self) -> (r: &Vec<__S3Object>)
        ensures
            r@ == self@.objects,
    {
        &self.objects
    }

    /// The keys of the checked entries.
    pub fn checked(&self) -> (r: &Vec<String>)
        ensures
            texts(r@).to_set() == self@.selection,
    {
        &self.checked
    }

    /// The error of the last fetch, when it failed.
    pub fn error(&self) -> (r: &Option<AppError>)
        ensures
            *r == self@.error,
    {
        &self.error
    }

    /// The ticket of the latest fetch: how many were started.
    pub fn generation(&self) -> (r: u64)
        ensures
            r as nat == self@.generation,
    {
        self.generation
    }

    pub fn is_loading(&self) -> (r: bool)
        ensures
            r == (self@.state == ListingState::Loading),
    {
        self.state == ListingState::Loading
    }

    pub fn is_creating(&self) -> (r: bool)
        ensures
            r == self@.creating_folder,
    {
        self.creating_folder
    }

    pub fn is_deleting(&self) -> (r: bool)
        ensures
            r == self@.deleting_objects,
    {
        self.deleting_objects
    }

    /// Whether `key` is checked.
    pub fn is_checked(&self, key: &str) -> (r: bool)
        requires
            self.wf(),
        ensures
            r == self@.selection.contains(key@),
    {
        match self.checked_index(key) {
            Some(i) => {
                assert(texts(self.checked@)[i as int] == key@);
                true
            },
            None => false,
        }
    }

    fn checked_index(&self, key: &str) -> (r: Option<usize>)
        ensures
            match r {
                Some(i) => i < self.checked@.len() && self.checked@[i as int]@ == key@,
                None => !texts(self.checked@).contains(key@),
            },
    {
        let mut i: usize = 0;
        while i < self.checked.len()
            invariant
                i <= self.checked@.len(),
                forall|k: int| 0 <= k < i ==> self.checked@[k]@ != key@,
            decreases self.checked@.len() - i,
        {
            if same_text(self.checked[i].as_str(), key) {
                return Some(i);
            }
            i = i + 1;
        }
        None
    }

    fn holds_key(&self, key: &str) -> (r: bool)
        ensures
            r == keys(self.objects@).contains(key@),
    {
        let mut i: usize = 0;
        while i < self.objects.len()
            invariant
                i <= self.objects@.len(),
                forall|k: int| 0 <= k < i ==> key_of(self.objects@[k]) != key@,
            decreases self.objects@.len() - i,
        {
            if same_text(self.objects[i].key().as_str(), key) {
                return true;
            }
            i = i + 1;
        }
        false
    }

    /// Starts a fetch and returns its ticket; a fetch still in flight is
    /// superseded, and its result will be dropped.
    pub fn begin_fetch(&mut self) -> (r: u64)
        requires
            old(self).wf(),
            old(self)@.generation < u64::MAX,
        ensures
            final(self).wf(),
            final(self)@ == begun(old(self)@),
            r as nat == final(self)@.generation,
            final(self).prefix_text() == old(self).prefix_text(),
            final(self).bucket_text() == old(self).bucket_text(),
    {
        self.generation = self.generation + 1;
        self.state = ListingState::Loading;
        self.error = None;
        self.checked = Vec::new();
        assert(texts(self.checked@).to_set() =~= Set::empty());
        assert(self@ =~= begun(old(self)@));
        self.generation
    }

    /// Applies the result of the fetch with `ticket`, if it is the latest
    /// fetch and still in flight (see `completed`); returns whether it was
    /// applied.
    pub fn complete_fetch(&mut self, ticket: u64, result: Result<Vec<__S3Object>, AppError>) -> (r: bool)
        requires
            old(self).wf(),
        ensures
            final(self).wf(),
            final(self)@ == completed(
                old(self)@,
                ticket as nat,
                match result {
                    Ok(v) => Ok(v@),
                    Err(e) => Err(e),
                },
            ),
            r == (ticket as nat == old(self)@.generation && old(self)@.state == ListingState::Loading),
            final(self).prefix_text() == old(self).prefix_text(),
            final(self).bucket_text() == old(self).bucket_text(),
    {
        if ticket != self.generation || self.state != ListingState::Loading {
            return false;
        }
        match result {
            Ok(objects) => {
                self.state = ListingState::Loaded;
                self.objects = objects;
                self.checked = Vec::new();
                self.error = None;
                assert(texts(self.checked@).to_set() =~= Set::empty());
            },
            Err(e) => {
                self.state = ListingState::Errored;
                self.error = Some(e);
            },
        }
        assert(self@ =~= completed(
            old(self)@,
            ticket as nat,
            match result {
                Ok(v) => Ok(v@),
                Err(e) => Err(e),
            },
        ));
        true
    }

    /// Flips the check of `key`; nothing happens unless the listing is loaded
    /// and holds `key`.
    pub fn toggle(&mut self, key: &str)
        requires
            old(self).wf(),
        ensures
            final(self).wf(),
            final(self)@ == toggled(old(self)@, key@),
            final(self).prefix_text() == old(self).prefix_text(),
            final(self).bucket_text() == old(self).bucket_text(),
    {
        if self.state != ListingState::Loaded || !self.holds_key(key) {
            return;
        }
        let ghost before = texts(self.checked@);
        match self.checked_index(key) {
            Some(i) => {
                self.checked.remove(i);
                proof {
                    assert(texts(self.checked@) =~= before.remove(i as int));
                    lemma_remove_distinct(before, i as int);
                    assert(before.contains(key@)) by {
                        assert(before[i as int] == key@);
                    }
                    assert forall|j: int| 0 <= j < self.checked@.len() implies keys(self.objects@).contains(
                        #[trigger] self.checked@[j]@,
                    ) by {
                        let j0 = if j < i { j } else { j + 1 };
                        assert(self.checked@[j] == old(self).checked@[j0]);
                    }
                }
            },
            None => {
                self.checked.push(key.to_string());
                proof {
                    assert(texts(self.checked@) =~= before.push(key@));
                    lemma_push_distinct(before, key@);
                    assert forall|j: int| 0 <= j < self.checked@.len() implies keys(self.objects@).contains(
                        #[trigger] self.checked@[j]@,
                    ) by {
                        if j < before.len() {
                            assert(self.checked@[j] == old(self).checked@[j]);
                        }
                    }
                }
            },
        }
        assert(self@ =~= toggled(old(self)@, key@));
    }

    /// Checks every loaded entry; nothing happens unless the listing is loaded.
    pub fn select_all(&mut self)
        requires
            old(self).wf(),
        ensures
            final(self).wf(),
            final(self)@ == all_selected(old(self)@),
            final(self).prefix_text() == old(self).prefix_text(),
            final(self).bucket_text() == old(self).bucket_text(),
    {
        if self.state != ListingState::Loaded {
            return;
        }
        let ghost sel0 = texts(self.checked@).to_set();
        let mut i: usize = 0;
        while i < self.objects.len()
            invariant
                self.wf(),
                self.objects@ == old(self).objects@,
                self.state == old(self).state,
                self.state == ListingState::Loaded,
                self.prefix == old(self).prefix,
                self.bucket_name == old(self).bucket_name,
                self.error == old(self).error,
                self.generation == old(self).generation,
                self.creating_folder == old(self).creating_folder,
                self.deleting_objects == old(self).deleting_objects,
                i <= self.objects@.len(),
                texts(self.checked@).to_set() == sel0.union(
                    Set::new(|k: Seq<char>| exists|j: int| 0 <= j < i && key_of(self.objects@[j]) == k),
                ),
            decreases self.objects@.len() - i,
        {
            let ghost before = texts(self.checked@);
            let ghost done = Set::new(|k: Seq<char>| exists|j: int| 0 <= j < i && key_of(self.objects@[j]) == k);
            let ghost next = Set::new(|k: Seq<char>| exists|j: int| 0 <= j < i + 1 && key_of(self.objects@[j]) == k);
            let ghost k_i = key_of(self.objects@[i as int]);
            assert(next =~= done.insert(k_i)) by {
                assert forall|k: Seq<char>| next.contains(k) implies done.insert(k_i).contains(k) by {
                    let j = choose|j: int| 0 <= j < i + 1 && key_of(self.objects@[j]) == k;
                    if j < i {
                        assert(done.contains(k));
                    }
                }
            }
            assert(keys(self.objects@).contains(k_i));
            let found = self.checked_index(self.objects[i].key().as_str());
            if found.is_none() {
                let key = self.objects[i].key().clone();
                self.checked.push(key);
                proof {
                    assert(texts(self.checked@) =~= before.push(k_i));
                    lemma_push_distinct(before, k_i);
                }
            } else {
                proof {
                    let j = found.unwrap() as int;
                    assert(before[j] == k_i);
                    assert(before.to_set().contains(k_i));
                }
            }
            assert(texts(self.checked@).to_set() =~= sel0.union(next));
            i = i + 1;
        }
        proof {
            let all = Set::new(|k: Seq<char>| exists|j: int| 0 <= j < self.objects@.len() && key_of(self.objects@[j]) == k);
            assert(all =~= keys(self.objects@));
        }
        assert(self@ =~= all_selected(old(self)@));
    }

    /// Starts deleting the checked entries and returns their keys: the
    /// folders and the files, each in listing order.
    pub fn begin_delete(&mut self) -> (r: DeletePlan)
        requires
            old(self).wf(),
        ensures
            final(self).wf(),
            final(self)@ == (ListingModel { deleting_objects: true, ..old(self)@ }),
            texts(r.folders@) == checked_folders(old(self)@.objects, old(self)@.selection),
            texts(r.files@) == checked_files(old(self)@.objects, old(self)@.selection),
            final(self).prefix_text() == old(self).prefix_text(),
            final(self).bucket_text() == old(self).bucket_text(),
    {
        let ghost sel = self@.selection;
        let ghost objs = self.objects@;
        let mut folders: Vec<String> = Vec::new();
        let mut files: Vec<String> = Vec::new();
        let mut i: usize = 0;
        while i < self.objects.len()
            invariant
                self.wf(),
                self@.selection == sel,
                self.objects@ == objs,
                i <= objs.len(),
                texts(folders@) == checked_folders(objs.subrange(0, i as int), sel),
                texts(files@) == checked_files(objs.subrange(0, i as int), sel),
            decreases objs.len() - i,
        {
            assert(objs.subrange(0, i + 1).drop_last() =~= objs.subrange(0, i as int));
            let ghost f0 = texts(folders@);
            let ghost g0 = texts(files@);
            match &self.objects[i] {
                __S3Object::Folder(k) => {
                    if self.is_checked(k.as_str()) {
                        folders.push(k.clone());
                        assert(texts(folders@) =~= f0.push(k@));
                    }
                },
                __S3Object::File { key, .. } => {
                    if self.is_checked(key.as_str()) {
                        files.push(key.clone());
                        assert(texts(files@) =~= g0.push(key@));
                    }
                },
            }
            i = i + 1;
        }
        assert(objs.subrange(0, objs.len() as int) =~= objs);
        self.deleting_objects = true;
        assert(self@ =~= (ListingModel { deleting_objects: true, ..old(self)@ }));
        DeletePlan { folders, files }
    }

    /// Ends a deletion with the results of the single deletions. On full
    /// success a fresh fetch starts (its ticket is returned) and the checks
    /// are cleared; otherwise the listing stays as it is and the joined
    /// failures are returned (see `aggregate_delete_results`).
    pub fn finish_delete(&mut self, results: &Vec<Result<(), AppError>>) -> (r: Result<u64, AppError>)
        requires
            old(self).wf(),
            old(self)@.generation < u64::MAX,
        ensures
            final(self).wf(),
            all_ok(results@) ==> final(self)@ == begun(ListingModel { deleting_objects: false, ..old(self)@ })
                && r == Ok::<u64, AppError>(final(self)@.generation as u64),
            !all_ok(results@) ==> final(self)@ == (ListingModel { deleting_objects: false, ..old(self)@ })
                && (r matches Err(e) && e.status == 400 && e.message@ == failure_text(results@)),
            final(self).prefix_text() == old(self).prefix_text(),
            final(self).bucket_text() == old(self).bucket_text(),
    {
        self.deleting_objects = false;
        assert(self@ =~= (ListingModel { deleting_objects: false, ..old(self)@ }));
        match aggregate_delete_results(results) {
            Ok(()) => Ok(self.begin_fetch()),
            Err(e) => Err(e),
        }
    }

    /// Starts creating the folder `name` (as typed) under this listing's
    /// prefix and returns its key (see `create_folder_key`).
    pub fn begin_create_folder(&mut self, name: &str) -> (r: String)
        requires
            old(self).wf(),
        ensures
            final(self).wf(),
            final(self)@ == (ListingModel { creating_folder: true, ..old(self)@ }),
            r@ == strip_both(old(self).prefix_text(), '/') + "/"@ + clean_folder_name(name@),
            final(self).prefix_text() == old(self).prefix_text(),
            final(self).bucket_text() == old(self).bucket_text(),
    {
        self.creating_folder = true;
        assert(self@ =~= (ListingModel { creating_folder: true, ..old(self)@ }));
        create_folder_key(self.prefix.as_str(), name)
    }

    /// Ends a folder creation: on success a fresh fetch starts and its ticket
    /// is returned; on failure the error is handed back and the listing stays.
    pub fn finish_create_folder(&mut self, result: Result<(), AppError>) -> (r: Result<u64, AppError>)
        requires
            old(self).wf(),
            old(self)@.generation < u64::MAX,
        ensures
            final(self).wf(),
            result is Ok ==> final(self)@ == begun(ListingModel { creating_folder: false, ..old(self)@ })
                && r == Ok::<u64, AppError>(final(self)@.generation as u64),
            result matches Err(e) ==> final(self)@ == (ListingModel { creating_folder: false, ..old(self)@ })
                && r == Err::<u64, AppError>(e),
            final(self).prefix_text() == old(self).prefix_text(),
            final(self).bucket_text() == old(self).bucket_text(),
    {
        self.creating_folder = false;
        assert(self@ =~= (ListingModel { creating_folder: false, ..old(self)@ }));
        match result {
            Ok(()) => Ok(self.begin_fetch()),
            Err(e) => Err(e),
        }
    }

    /// Unchecks everything.
    pub fn clear_selection(&mut self)
        requires
            old(self).wf(),
        ensures
            final(self).wf(),
            final(self)@ == cleared(old(self)@),
            final(self).prefix_text() == old(self).prefix_text(),
            final(self).bucket_text() == old(self).bucket_text(),
    {
        self.checked = Vec::new();
        assert(texts(self.checked@).to_set() =~= Set::empty());
        assert(self@ =~= cleared(old(self)@));
    }
}

} // verus!
