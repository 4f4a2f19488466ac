use vstd::prelude::*;

use crate::text::same_text;

verus! {

/// No name occurs twice in `s`.
pub open spec fn distinct_names(s: Seq<Seq<char>>) -> bool {
    forall|i: int, j: int| 0 <= i < j < s.len() ==> s[i] != s[j]
}

/// The position of `id` in `ids`, which holds it.
pub open spec fn position_of(ids: Seq<Seq<char>>, id: Seq<char>) -> int {
    choose|i: int| 0 <= i < ids.len() && ids[i] == id
}

/// Tabs and active index after opening `id`: an open tab of that name is
/// focused, otherwise a new tab is appended and becomes active.
pub open spec fn opened(ids: Seq<Seq<char>>, active: int, id: Seq<char>) -> (Seq<Seq<char>>, int) {
    if ids.contains(id) {
        (ids, position_of(ids, id))
    } else {
        (ids.push(id), ids.len() as int)
    }
}

/// The active index after the tab at `index` (of `len` tabs) is closed.
/// Closing before the active tab shifts it down by one; closing after it
/// leaves it; closing the active tab keeps the index (now the next tab),
/// except at the end of the list, where it moves back by one (never below 0).
pub open spec fn active_after_close(active: int, index: int, len: int) -> int {
    if index < active {
        active - 1
    } else if index > active {
        active
    } else if active == len - 1 && active > 0 {
        active - 1
    } else {
        active
    }
}

/// Tabs and active index after closing the tab at `index`; an index out of
/// range changes nothing.
pub open spec fn closed(ids: Seq<Seq<char>>, active: int, index: int) -> (Seq<Seq<char>>, int) {
    if 0 <= index < ids.len() {
        (ids.remove(index), active_after_close(active, index, ids.len() as int))
    } else {
        (ids, active)
    }
}

/// Tab list and active index well formed: names distinct, the active index
/// on a tab when there is one, and 0 when there is none.
pub open spec fn tabs_wf(ids: Seq<Seq<char>>, active: int) -> bool {
    &&& distinct_names(ids)
    &&& ids.len() > 0 ==> 0 <= active < ids.len()
    &&& ids.len() == 0 ==> active == 0
}

/// The open tabs of a window, one per remote, in the order they were opened,
/// each holding a view of type `V`, and the index of the active one.
pub struct TabNav<V> {
    active_index: usize,
    views: Vec<V>,
    tabs: Vec<String>,
}

impl<V> TabNav<V> {
    /// The remote names of the tabs, in order.
    pub closed spec fn ids(&self) -> Seq<Seq<char>> {
        self.tabs@.map_values(|s: String| s@)
    }

    /// The tabs' views, in the order of the tabs.
    pub closed spec fn views(&self) -> Seq<V> {
        self.views@
    }

    pub closed spec fn active(&self) -> int {
        self.active_index as int
    }

    pub closed spec fn wf(&self) -> bool {
        &&& self.views@.len() == self.tabs@.len()
        &&& tabs_wf(self.ids(), self.active())
    }

    /// No tabs.
    pub fn new() -> (r: Self)
        ensures
            r.wf(),
            r.ids() == Seq::<Seq<char>>::empty(),
            r.views() == Seq::<V>::empty(),
            r.active() == 0,
    {
        let r = TabNav { active_index: 0, views: Vec::new(), tabs: Vec::new() };
        assert(r.ids() =~= Seq::<Seq<char>>::empty());
        r
    }

    pub fn active_index(&self) -> (r: &usize)
        ensures
            *r as int == self.active(),
    {
        &self.active_index
    }

    /// The remote names of the tabs, in order.
    pub fn tabs(&self) -> (r: &Vec<String>)
        ensures
            r@.map_values(|s: String| s@) == self.ids(),
    {
        &self.tabs
    }

    /// The view of the active tab; none when there are no tabs.
    pub fn active_view(&self) -> (r: Option<&V>)
        requires
            self.wf(),
        ensures
            match r {
                Some(v) => 0 <= self.active() < self.views().len() && *v == self.views()[self.active()],
                None => self.views().len() == 0,
            },
    {
        if self.active_index < self.views.len() {
            Some(&self.views[self.active_index])
        } else {
            None
        }
    }

    /// Makes the tab at `index` active; an index out of range changes nothing.
    pub fn select_tab(&mut self, index: usize)
        requires
            old(self).wf(),
        ensures
            final(self).wf(),
            final(self).ids() == old(self).ids(),
            final(self).views() == old(self).views(),
            final(self).active() == if index < old(self).ids().len() {
                index as int
            } else {
                old(self).active()
            },
    {
        if index < self.tabs.len() {
            self.active_index = index;
        }
    }

    /// The position of the tab for remote `id`, if one is open.
    pub fn get_index_for_id(&self, id: &str) -> (r: Option<usize>)
        requires
            self.wf(),
        ensures
            match r {
                Some(i) => i < self.ids().len() && self.ids()[i as int] == id@ && i as int
                    == position_of(self.ids(), id@),
                None => !self.ids().contains(id@),
            },
    {
        let mut i: usize = 0;
        while i < self.tabs.len()
            invariant
                self.wf(),
                i <= self.tabs@.len(),
                forall|k: int| 0 <= k < i ==> self.ids()[k] != id@,
            decreases self.tabs@.len() - i,
        {
            if same_text(self.tabs[i].as_str(), id) {
                proof {
                    let ids = self.ids();
                    assert(ids[i as int] == id@);
                    let p = position_of(ids, id@);
                    assert(0 <= p < ids.len() && ids[p] == id@);
                    assert(p == i as int);
                }
                return Some(i);
            }
            i = i + 1;
        }
        None
    }

    /// Opens a tab for remote `id` holding `view`, or, when one is already
    /// open, makes that tab active and drops `view`: never two tabs for one
    /// remote.
    pub fn new_tab(&mut self, id: String, view: V)
        requires
            old(self).wf(),
        ensures
            final(self).wf(),
            (final(self).ids(), final(self).active()) == opened(old(self).ids(), old(self).active(), id@),
            final(self).views() == if old(self).ids().contains(id@) {
                old(self).views()
            } else {
                old(self).views().push(view)
            },
    {
        match self.get_index_for_id(id.as_str()) {
            Some(index) => {
                self.active_index = index;
            },
            None => {
                let ghost old_ids = self.ids();
                self.tabs.push(id);
                self.views.push(view);
                self.active_index = self.tabs.len() - 1;
                assert(self.ids() =~= old_ids.push(id@));
            },
        }
    }

    /// Closes the tab for remote `id`, if one is open.
    pub fn close_tab_by_remote(&mut self, id: &str)
        requires
            old(self).wf(),
        ensures
            final(self).wf(),
            old(self).ids().contains(id@) ==> {
                let i = position_of(old(self).ids(), id@);
                &&& (final(self).ids(), final(self).active()) == closed(old(self).ids(), old(self).active(), i)
                &&& final(self).views() == old(self).views().remove(i)
            },
            !old(self).ids().contains(id@) ==> *final(self) == *old(self),
            !final(self).ids().contains(id@),
    {
        if let Some(index) = self.get_index_for_id(id) {
            let ghost ids = self.ids();
            self.close_tab(index);
            proof {
                let r = self.ids();
                if r.contains(id@) {
                    let k = choose|k: int| 0 <= k < r.len() && r[k] == id@;
                    let k0 = if k < index { k } else { k + 1 };
                    assert(ids[k0] == id@ && k0 != index);
                }
            }
        }
    }

    /// Closes the tab at `index`, keeping the active index on the same tab
    /// where that tab stays (see `active_after_close`); an index out of range
    /// changes nothing.
    pub fn close_tab(&mut self, index: usize)
        requires
            old(self).wf(),
        ensures
            final(self).wf(),
            (final(self).ids(), final(self).active()) == closed(old(self).ids(), old(self).active(), index as int),
            final(self).views() == if index < old(self).ids().len() {
                old(self).views().remove(index as int)
            } else {
                old(self).views()
            },
            index >= old(self).ids().len() ==> *final(self) == *old(self),
    {
        if index == self.active_index {
            self.close_active_tab();
            return;
        }
        if index >= self.tabs.len() {
            return;
        }
        let ghost old_ids = self.ids();
        self.tabs.remove(index);
        self.views.remove(index);
        if self.active_index > index && self.active_index > 0 {
            self.active_index = self.active_index - 1;
        }
        proof {
            assert(self.ids() =~= old_ids.remove(index as int));
            assert forall|i: int, j: int| 0 <= i < j < self.ids().len() implies self.ids()[i] != self.ids()[j] by {
                let i0 = if i < index { i } else { i + 1 };
                let j0 = if j < index { j } else { j + 1 };
                assert(old_ids[i0] != old_ids[j0]);
            }
        }
    }

    /// Closes the active tab; false, with nothing changed, when there is none.
    pub fn close_active_tab(&mut self) -> (r: bool)
        requires
            old(self).wf(),
        ensures
            final(self).wf(),
            r == (old(self).ids().len() > 0),
            !r ==> *final(self) == *old(self),
            r ==> (final(self).ids(), final(self).active()) == closed(old(self).ids(), old(self).active(), old(self).active()),
            r ==> final(self).views() == old(self).views().remove(old(self).active()),
    {
        if self.active_index >= self.tabs.len() {
            return false;
        }
        let ghost old_ids = self.ids();
        let len = self.tabs.len();
        self.tabs.remove(self.active_index);
        self.views.remove(self.active_index);
        if self.active_index == len - 1 && self.active_index > 0 {
            self.active_index = self.active_index - 1;
        }
        proof {
            let index = old(self).active();
            assert(self.ids() =~= old_ids.remove(index));
            assert forall|i: int, j: int| 0 <= i < j < self.ids().len() implies self.ids()[i] != self.ids()[j] by {
                let i0 = if i < index { i } else { i + 1 };
                let j0 = if j < index { j } else { j + 1 };
                assert(old_ids[i0] != old_ids[j0]);
            }
        }
        true
    }
}

/// Opening the same remote twice never yields two tabs for it: the second
/// opening leaves the tab list as the first one left it, and only makes that
/// remote's tab the active one.
pub proof fn open_twice_keeps_one_tab(ids: Seq<Seq<char>>, active: int, id: Seq<char>)
    requires
        tabs_wf(ids, active),
    ensures
        ({
            let (ids1, a1) = opened(ids, active, id);
            let (ids2, a2) = opened(ids1, a1, id);
            &&& tabs_wf(ids1, a1)
            &&& tabs_wf(ids2, a2)
            &&& ids2 == ids1
            &&& ids2[a2] == id
            &&& forall|i: int| 0 <= i < ids2.len() && ids2[i] == id ==> i == a2
        }),
{
    let (ids1, a1) = opened(ids, active, id);
    if ids.contains(id) {
        let p = position_of(ids, id);
        assert(0 <= p < ids.len() && ids[p] == id);
    } else {
        assert(ids1[ids.len() as int] == id);
        assert(ids1.contains(id));
        assert forall|i: int, j: int| 0 <= i < j < ids1.len() implies ids1[i] != ids1[j] by {
            if j == ids.len() {
                assert(ids1[i] == ids[i]);
            } else {
                assert(ids1[i] == ids[i] && ids1[j] == ids[j]);
            }
        }
    }
    assert(ids1.contains(id));
    let p = position_of(ids1, id);
    assert(0 <= p < ids1.len() && ids1[p] == id);
}

/// Closing a tab keeps the active index on the tab that was active: one
/// down when the closed tab stood before it, unchanged when it stood after.
/// When the active tab itself closes, the index stays and so names the next
/// tab, unless the closed tab was the last one, where it moves back by one
/// (never below 0).
pub proof fn close_keeps_active_tab(ids: Seq<Seq<char>>, active: int, index: int)
    requires
        tabs_wf(ids, active),
        0 <= index < ids.len(),
    ensures
        ({
            let (ids1, a1) = closed(ids, active, index);
            &&& tabs_wf(ids1, a1)
            &&& ids1 == ids.remove(index)
            &&& index < active ==> a1 == active - 1 && ids1[a1] == ids[active]
            &&& index > active ==> a1 == active && ids1[a1] == ids[active]
            &&& index == active && active < ids.len() - 1 ==> a1 == active && ids1[a1] == ids[active + 1]
            &&& index == active && active == ids.len() - 1 ==> a1 == if active > 0 { active - 1 } else { 0 }
        }),
{
    let (ids1, a1) = closed(ids, active, index);
    assert forall|i: int, j: int| 0 <= i < j < ids1.len() implies ids1[i] != ids1[j] by {
        let i0 = if i < index { i } else { i + 1 };
        let j0 = if j < index { j } else { j + 1 };
        assert(ids[i0] != ids[j0]);
    }
}

/// One breadcrumb operation: entering a folder (display name, prefix), or
/// going back to the entry at an index.
pub enum StackStep {
    Push(Seq<char>, Seq<char>),
    Trim(int),
}

/// Entries and current index after one step. Entering drops the entries
/// after the current one and appends; going back keeps the entries up to the
/// index; an index out of range changes nothing.
pub open spec fn stepped(entries: Seq<(Seq<char>, Seq<char>)>, ptr: int, step: StackStep) -> (
    Seq<(Seq<char>, Seq<char>)>,
    int,
) {
    match step {
        StackStep::Push(name, prefix) => (entries.subrange(0, ptr + 1).push((name, prefix)), ptr + 1),
        StackStep::Trim(i) => if 0 <= i < entries.len() {
            (entries.subrange(0, i + 1), i)
        } else {
            (entries, ptr)
        },
    }
}

/// Entries and current index after a sequence of steps.
pub open spec fn run_steps(entries: Seq<(Seq<char>, Seq<char>)>, ptr: int, steps: Seq<StackStep>) -> (
    Seq<(Seq<char>, Seq<char>)>,
    int,
)
    decreases steps.len(),
{
    if steps.len() == 0 {
        (entries, ptr)
    } else {
        let (e, p) = stepped(entries, ptr, steps[0]);
        run_steps(e, p, steps.drop_first())
    }
}

/// A breadcrumb stack is never empty and its current index is its last entry.
pub open spec fn stack_ok(entries: Seq<(Seq<char>, Seq<char>)>, ptr: int) -> bool {
    &&& entries.len() >= 1
    &&& ptr == entries.len() - 1
}

/// Whatever sequence of pushes and trims is applied, the stack stays a
/// contiguous path from the same root entry, and the current index stays on
/// a valid entry, its last one.
pub proof fn steps_keep_stack_valid(entries: Seq<(Seq<char>, Seq<char>)>, ptr: int, steps: Seq<StackStep>)
    requires
        stack_ok(entries, ptr),
    ensures
        stack_ok(run_steps(entries, ptr, steps).0, run_steps(entries, ptr, steps).1),
        run_steps(entries, ptr, steps).0[0] == entries[0],
        0 <= run_steps(entries, ptr, steps).1 < run_steps(entries, ptr, steps).0.len(),
    decreases steps.len(),
{
    if steps.len() > 0 {
        let (e, p) = stepped(entries, ptr, steps[0]);
        assert(stack_ok(e, p) && e[0] == entries[0]);
        steps_keep_stack_valid(e, p, steps.drop_first());
    }
}

/// The breadcrumb stack of one tab: the (display name, prefix) pairs from the
/// bucket root to the folder shown, each with the view cached for it. The
/// current entry is the last one; views are kept by position, so a view is
/// dropped exactly when its entry is.
pub struct BucketNav<V> {
    ptr: usize,
    views: Vec<V>,
    stack: Vec<(String, String)>,
}

impl<V> BucketNav<V> {
    /// The (display name, prefix) pairs, root first.
    pub closed spec fn entries(&self) -> Seq<(Seq<char>, Seq<char>)> {
        self.stack@.map_values(|e: (String, String)| (e.0@, e.1@))
    }

    /// The cached views, one per entry.
    pub closed spec fn views(&self) -> Seq<V> {
        self.views@
    }

    /// The index of the current entry.
    pub closed spec fn ptr(&self) -> int {
        self.ptr as int
    }

    /// Never empty, one view per entry, and the current entry is the last:
    /// the entries run contiguously from the root to `ptr`.
    pub closed spec fn wf(&self) -> bool {
        &&& self.stack@.len() >= 1
        &&& self.views@.len() == self.stack@.len()
        &&& self.ptr as int == self.stack@.len() - 1
    }

    /// A stack that holds the root entry (`name`, `prefix`) and its view.
    pub fn new(name: String, prefix: String, view: V) -> (r: Self)
        ensures
            r.wf(),
            r.entries() == seq![(name@, prefix@)],
            r.views() == seq![view],
            r.ptr() == 0,
    {
        let ghost e = (name@, prefix@);
        let mut views = Vec::new();
        views.push(view);
        let mut stack = Vec::new();
        stack.push((name, prefix));
        let r = BucketNav { ptr: 0, views, stack };
        assert(r.entries() =~= seq![e]);
        assert(r.views() =~= seq![view]);
        r
    }

    /// Replaces the view of the current entry, keeping the stack as it is.
    pub fn refresh_active_view(&mut self, view: V)
        requires
            old(self).wf(),
        ensures
            final(self).wf(),
            final(self).entries() == old(self).entries(),
            final(self).ptr() == old(self).ptr(),
            final(self).views() == old(self).views().update(old(self).ptr(), view),
    {
        self.views.set(self.ptr, view);
    }

    /// The prefix of the current entry.
    pub fn active_view(&self) -> (r: Option<&String>)
        requires
            self.wf(),
        ensures
            r matches Some(p) && p@ == self.entries()[self.ptr()].1,
    {
        Some(&self.stack[self.ptr].1)
    }

    /// The view of the current entry.
    pub fn current_view(&self) -> (r: Option<&V>)
        requires
            self.wf(),
        ensures
            r matches Some(v) && *v == self.views()[self.ptr()],
    {
        Some(&self.views[self.ptr])
    }

    /// The (display name, prefix) pairs, root first.
    pub fn stack(&self) -> (r: &Vec<(String, String)>)
        ensures
            r@.map_values(|e: (String, String)| (e.0@, e.1@)) == self.entries(),
    {
        &self.stack
    }

    /// Enters (`name`, `prefix`) from the current entry: the entries after the
    /// current one and their views are dropped, the new entry is appended with
    /// `view` and becomes current.
    pub fn push(&mut self, name: String, prefix: String, view: V)
        requires
            old(self).wf(),
        ensures
            final(self).wf(),
            final(self).entries() == old(self).entries().subrange(0, old(self).ptr() + 1).push(
                (name@, prefix@),
            ),
            final(self).views() == old(self).views().subrange(0, old(self).ptr() + 1).push(view),
            final(self).ptr() == final(self).entries().len() - 1,
            final(self).views().len() == final(self).entries().len(),
            (final(self).entries(), final(self).ptr()) == stepped(
                old(self).entries(),
                old(self).ptr(),
                StackStep::Push(name@, prefix@),
            ),
    {
        let ghost e = (name@, prefix@);
        let ghost old_entries = self.entries();
        self.drop_later_and_views();
        self.stack.push((name, prefix));
        self.views.push(view);
        self.ptr = self.stack.len() - 1;
        assert(self.entries() =~= old_entries.subrange(0, old(self).ptr() + 1).push(e));
    }

    /// Goes back to the entry at `index`: the entries after it and their views
    /// are dropped and it becomes current. An index out of range changes
    /// nothing.
    pub fn trim(&mut self, index: usize)
        requires
            old(self).wf(),
        ensures
            final(self).wf(),
            index < old(self).entries().len() ==> {
                &&& final(self).entries() == old(self).entries().subrange(0, index + 1)
                &&& final(self).views() == old(self).views().subrange(0, index + 1)
                &&& final(self).ptr() == index
            },
            index >= old(self).entries().len() ==> *final(self) == *old(self),
            final(self).entries().len() >= 1,
            final(self).ptr() == final(self).entries().len() - 1,
            final(self).views().len() == final(self).entries().len(),
            (final(self).entries(), final(self).ptr()) == stepped(
                old(self).entries(),
                old(self).ptr(),
                StackStep::Trim(index as int),
            ),
    {
        if index < self.stack.len() {
            self.ptr = index;
            self.drop_later_and_views();
        }
    }

    /// Drops the entries after the current one, and their views.
    fn drop_later_and_views(&mut self)
        requires
            old(self).ptr < old(self).stack@.len(),
            old(self).views@.len() == old(self).stack@.len(),
        ensures
            final(self).ptr == old(self).ptr,
            final(self).stack@ == old(self).stack@.subrange(0, old(self).ptr + 1),
            final(self).views@ == old(self).views@.subrange(0, old(self).ptr + 1),
            final(self).entries() == old(self).entries().subrange(0, old(self).ptr + 1),
    {
        let ghost old_entries = self.entries();
        let len = self.stack.len();
        assert(self.ptr < len);
        self.stack.truncate(self.ptr + 1);
        self.views.truncate(self.ptr + 1);
        assert(self.entries() =~= old_entries.subrange(0, old(self).ptr + 1));
    }
}

} // verus!
