//! The list of open tabs.

use vstd::prelude::*;

verus! {

/// The open tabs, and which of them is shown.
pub struct TabList<T> {
    pub tabs: Vec<T>,
    pub cur_tab: usize,
}

/// What a click on a tab asks for.
#[derive(Clone, Copy, Debug, PartialEq, Eq, Structural)]
pub enum TabAction {
    Nothing,
    Select,
    Kill,
}

/// What a click on a tab asks for.
pub fn tab_click(button: u16, down: bool, select_button: u16, kill_button: u16) -> (r: TabAction)
    ensures
        r == if down && button == select_button {
            TabAction::Select
        } else if down && button == kill_button {
            TabAction::Kill
        } else {
            TabAction::Nothing
        },
{
    if down && button == select_button {
        TabAction::Select
    } else if down && button == kill_button {
        TabAction::Kill
    } else {
        TabAction::Nothing
    }
}

/// The keys that act on the tabs, together with a control key.
#[derive(Clone, Copy, Debug, PartialEq, Eq, Structural)]
pub enum TabKey {
    W,
    O,
    Tab,
}

/// What a key asks for.
#[derive(Clone, Copy, Debug, PartialEq, Eq, Structural)]
pub enum WindowAction {
    Nothing,
    /// Close a tab.
    Kill(usize),
    /// Let the user pick files to open.
    Open,
    /// Show a tab.
    Select(usize),
}

/// The tabs without the one at `i`, which the last one takes the place of.
pub open spec fn taken<T>(tabs: Seq<T>, i: int) -> Seq<T> {
    tabs.update(i, tabs.last()).drop_last()
}

/// The tabs with one put at `i`, from where the one there goes to the end.
pub open spec fn put<T>(tabs: Seq<T>, i: int, tab: T) -> Seq<T> {
    if i < tabs.len() {
        tabs.update(i, tab).push(tabs[i])
    } else {
        tabs.push(tab)
    }
}

/// Putting a tab back to where it was taken from restores the list.
pub proof fn lemma_put_taken<T>(tabs: Seq<T>, i: int)
    requires
        0 <= i < tabs.len(),
    ensures
        put(taken(tabs, i), i, tabs[i]) == tabs,
{
    assert(put(taken(tabs, i), i, tabs[i]) =~= tabs);
}

impl<T> TabList<T> {
    /// One of the tabs is shown, if there are any.
    pub open spec fn wf(self) -> bool {
        self.cur_tab < self.tabs@.len() || (self.cur_tab == 0 && self.tabs@.len() == 0)
    }

    /// No tabs.
    pub fn new() -> (r: TabList<T>)
        ensures
            r.wf(),
            r.tabs@ == Seq::<T>::empty(),
            r.cur_tab == 0,
    {
        TabList { tabs: Vec::new(), cur_tab: 0 }
    }

    /// Take a tab out of the list for a moment.
    pub fn take_ftab(&mut self, idx: usize) -> (r: Option<T>)
        ensures
            final(self).cur_tab == old(self).cur_tab,
            idx < old(self).tabs@.len() ==> r == Some(old(self).tabs@[idx as int])
                && final(self).tabs@ == taken(old(self).tabs@, idx as int),
            idx >= old(self).tabs@.len() ==> r is None && final(self).tabs@ == old(self).tabs@,
    {
        if idx < self.tabs.len() {
            let ghost was = self.tabs@;
            let tab: T = self.tabs.swap_remove(idx);
            proof {
                assert(self.tabs@ =~= taken(was, idx as int));
            }
            Some(tab)
        } else {
            None
        }
    }

    /// Put a tab back to where it was taken from.
    pub fn put_ftab(&mut self, idx: usize, ftab: T)
        requires
            idx <= old(self).tabs@.len(),
        ensures
            final(self).cur_tab == old(self).cur_tab,
            final(self).tabs@ == put(old(self).tabs@, idx as int, ftab),
    {
        let ghost was = self.tabs@;
        self.tabs.push(ftab);
        if idx < self.tabs.len() - 1 {
            let there: T = self.tabs.swap_remove(idx);
            self.tabs.push(there);
        }
        proof {
            assert(self.tabs@ =~= put(was, idx as int, ftab));
        }
    }

    /// Open a tab after the one that is shown, and show it.
    pub fn load(&mut self, tab: T)
        requires
            old(self).wf(),
        ensures
            final(self).wf(),
            final(self).cur_tab == if old(self).tabs@.len() == 0 {
                0
            } else {
                old(self).cur_tab + 1
            },
            final(self).tabs@ == old(self).tabs@.insert(final(self).cur_tab as int, tab),
    {
        let i: usize = if self.cur_tab < self.tabs.len() {
            self.cur_tab + 1
        } else {
            self.tabs.len()
        };
        self.tabs.insert(i, tab);
        self.cur_tab = i;
    }

    /// Show a tab. Returns which tab is no longer shown, if it is another one.
    pub fn select_tab(&mut self, i: usize) -> (r: Option<usize>)
        requires
            old(self).wf(),
            i < old(self).tabs@.len(),
        ensures
            final(self).wf(),
            final(self).tabs@ == old(self).tabs@,
            final(self).cur_tab == i,
            r == if i == old(self).cur_tab {
                None::<usize>
            } else {
                Some(old(self).cur_tab)
            },
    {
        if i == self.cur_tab {
            return None;
        }
        let was: usize = self.cur_tab;
        self.cur_tab = i;
        Some(was)
    }

    /// Close a tab. Returns it, if there is such a tab.
    pub fn kill_tab(&mut self, i: usize) -> (r: Option<T>)
        requires
            old(self).wf(),
        ensures
            final(self).wf(),
            i < old(self).tabs@.len() ==> {
                &&& r == Some(old(self).tabs@[i as int])
                &&& final(self).tabs@ == old(self).tabs@.remove(i as int)
                &&& final(self).cur_tab == if old(self).cur_tab > 0 && old(self).cur_tab == old(
                    self,
                ).tabs@.len() - 1 {
                    old(self).cur_tab - 1
                } else {
                    old(self).cur_tab as int
                }
            },
            i >= old(self).tabs@.len() ==> r is None && final(self).tabs@ == old(self).tabs@
                && final(self).cur_tab == old(self).cur_tab,
    {
        if i < self.tabs.len() {
            let tab: T = self.tabs.remove(i);
            if self.cur_tab > 0 && self.cur_tab == self.tabs.len() {
                self.cur_tab = self.cur_tab - 1;
            }
            Some(tab)
        } else {
            None
        }
    }

    /// The tab before or after the one that is shown, in a circle.
    pub fn neighbor(&self, backwards: bool) -> (r: Option<usize>)
        requires
            self.wf(),
        ensures
            self.tabs@.len() == 0 ==> r is None,
            self.tabs@.len() > 0 ==> r == Some(
                ((if backwards {
                    self.cur_tab + self.tabs@.len() - 1
                } else {
                    self.cur_tab + 1
                }) % self.tabs@.len() as int) as usize,
            ),
            r matches Some(i) ==> i < self.tabs@.len(),
    {
        let n: usize = self.tabs.len();
        if n == 0 {
            return None;
        }
        proof {
            let c = self.cur_tab as int;
            if backwards {
                if c == 0 {
                    vstd::arithmetic::div_mod::lemma_small_mod((n - 1) as nat, n as nat);
                } else {
                    vstd::arithmetic::div_mod::lemma_mod_add_multiples_vanish(c - 1, n as int);
                    vstd::arithmetic::div_mod::lemma_small_mod((c - 1) as nat, n as nat);
                    assert(c + n - 1 == n + (c - 1));
                }
            } else {
                if c + 1 == n {
                    vstd::arithmetic::div_mod::lemma_mod_self_0(n as int);
                } else {
                    vstd::arithmetic::div_mod::lemma_small_mod((c + 1) as nat, n as nat);
                }
            }
        }
        if backwards {
            if self.cur_tab == 0 {
                Some(n - 1)
            } else {
                Some(self.cur_tab - 1)
            }
        } else {
            if self.cur_tab + 1 == n {
                Some(0)
            } else {
                Some(self.cur_tab + 1)
            }
        }
    }
}

impl<T> TabList<T> {
    /// Decide what a key that goes down asks for.
    pub fn handle_key(&self, key: TabKey, ctrl: bool, shift: bool) -> (r: WindowAction)
        requires
            self.wf(),
        ensures
            !ctrl ==> r is Nothing,
            ctrl ==> match key {
                TabKey::W => r == WindowAction::Kill(self.cur_tab),
                TabKey::O => r is Open,
                TabKey::Tab => if self.tabs@.len() == 0 {
                    r is Nothing
                } else {
                    r == WindowAction::Select(
                        ((if shift {
                            self.cur_tab + self.tabs@.len() - 1
                        } else {
                            self.cur_tab + 1
                        }) % self.tabs@.len() as int) as usize,
                    )
                },
            },
            r matches WindowAction::Select(i) ==> i < self.tabs@.len(),
    {
        if !ctrl {
            return WindowAction::Nothing;
        }
        match key {
            TabKey::W => WindowAction::Kill(self.cur_tab),
            TabKey::O => WindowAction::Open,
            TabKey::Tab => match self.neighbor(shift) {
                Some(i) => WindowAction::Select(i),
                None => WindowAction::Nothing,
            },
        }
    }
}

} // verus!
