//! The session's wallet set: named private keys and the selection the
//! rest of the interface works on.
//!
//! Names are unique. Renaming keeps a wallet's position and follows the
//! selection; deleting a selected wallet falls back to the first wallet
//! that remains, or to no selection. Keys are held as their raw 32
//! bytes; how they are displayed or persisted is the surrounding
//! program's business.

use vstd::prelude::*;

verus! {

/// Named wallets in insertion order, with the selected wallet's name.
#[derive(Debug)]
pub struct WalletRegistry {
    entries: Vec<(String, [u8; 32])>,
    selected: String,
}

impl View for WalletRegistry {
    type V = Seq<(Seq<char>, Seq<u8>)>;

    closed spec fn view(&self) -> Seq<(Seq<char>, Seq<u8>)> {
        self.entries@.map_values(|e: (String, [u8; 32])| (e.0@, e.1@))
    }
}

impl WalletRegistry {
    /// The selected wallet's name; empty when nothing is selected.
    pub closed spec fn selected_name(&self) -> Seq<char> {
        self.selected@
    }

    /// Whether a wallet of this name exists.
    pub open spec fn has(&self, name: Seq<char>) -> bool {
        exists|i: int| 0 <= i < self@.len() && (#[trigger] self@[i]).0 == name
    }

    /// No two wallets share a name.
    pub open spec fn wf(&self) -> bool {
        forall|i: int, j: int| 0 <= i < j < self@.len() ==> (#[trigger] self@[i]).0 != (
        #[trigger] self@[j]).0
    }

    /// An empty registry with nothing selected.
    pub fn new() -> (w: WalletRegistry)
        ensures
            w@ == Seq::<(Seq<char>, Seq<u8>)>::empty(),
            w.selected_name() == Seq::<char>::empty(),
            w.wf(),
    {
        let w = WalletRegistry { entries: Vec::new(), selected: String::new() };
        proof {
            assert(w@ =~= Seq::<(Seq<char>, Seq<u8>)>::empty());
        }
        w
    }

    /// How many wallets are registered.
    pub fn len(&self) -> (n: usize)
        ensures
            n == self@.len(),
    {
        self.entries.len()
    }

    /// The name and key at a position, in insertion order.
    pub fn entry_at(&self, i: usize) -> (e: (String, [u8; 32]))
        requires
            i < self@.len(),
        ensures
            e.0@ == self@[i as int].0,
            e.1@ == self@[i as int].1,
    {
        let (name, key) = &self.entries[i];
        (name.clone(), *key)
    }

    /// The selected wallet's name; empty when nothing is selected.
    pub fn selected(&self) -> (name: &String)
        ensures
            name@ == self.selected_name(),
    {
        &self.selected
    }

    /// The position of the wallet of this name, if any.
    fn position_of(&self, name: &String) -> (r: Option<usize>)
        ensures
            r matches Some(i) ==> i < self@.len() && self@[i as int].0 == name@,
            r is None ==> !self.has(name@),
    {
        let mut i: usize = 0;
        while i < self.entries.len()
            invariant
                0 <= i <= self@.len(),
                self@.len() == self.entries@.len(),
                forall|j: int| 0 <= j < i ==> (#[trigger] self@[j]).0 != name@,
            decreases self@.len() - i,
        {
            if self.entries[i].0 == *name {
                proof {
                    assert(self@[i as int].0 == name@);
                }
                return Some(i);
            }
            i += 1;
        }
        None
    }

    /// Whether a wallet of this name exists.
    pub fn contains(&self, name: &String) -> (b: bool)
        ensures
            b == self.has(name@),
    {
        match self.position_of(name) {
            Some(i) => {
                proof {
                    assert(self.has(name@)) by {
                        assert(self@[i as int].0 == name@);
                    }
                }
                true
            },
            None => false,
        }
    }

    /// The key of the wallet of this name, if any.
    pub fn get(&self, name: &String) -> (r: Option<[u8; 32]>)
        ensures
            r is Some <==> self.has(name@),
            r matches Some(k) ==> exists|i: int|
                0 <= i < self@.len() && #[trigger] self@[i] == (name@, k@),
    {
        match self.position_of(name) {
            Some(i) => {
                let k = self.entries[i].1;
                proof {
                    assert(self@[i as int] == (name@, k@));
                    assert(self.has(name@)) by {
                        assert(self@[i as int].0 == name@);
                    }
                }
                Some(k)
            },
            None => None,
        }
    }

    /// Register a new wallet. Succeeds exactly when the name is
    /// non-empty and not yet taken; the wallet then joins the end of
    /// the list and the selection stands unchanged.
    pub fn insert(&mut self, name: String, key: [u8; 32]) -> (r: bool)
        requires
            old(self).wf(),
        ensures
            final(self).wf(),
            r == (name@.len() > 0 && !old(self).has(name@)),
            r ==> final(self)@ == old(self)@.push((name@, key@)),
            !r ==> final(self)@ == old(self)@,
            final(self).selected_name() == old(self).selected_name(),
    {
        if name.as_str().is_empty() || self.contains(&name) {
            return false;
        }
        let ghost pre = self@;
        self.entries.push((name, key));
        proof {
            assert(self@ =~= pre.push((name@, key@)));
            assert forall|i: int, j: int| 0 <= i < j < self@.len() implies (
            #[trigger] self@[i]).0 != (#[trigger] self@[j]).0 by {
                if j == self@.len() - 1 {
                    if self@[i].0 == name@ {
                        assert(old(self).has(name@)) by {
                            assert(pre[i].0 == name@);
                        }
                    }
                }
            }
        }
        true
    }

    /// Make this wallet the selected one. Succeeds exactly when it
    /// exists; nothing else changes.
    pub fn select(&mut self, name: &String) -> (r: bool)
        ensures
            final(self)@ == old(self)@,
            r == old(self).has(name@),
            r ==> final(self).selected_name() == name@,
            !r ==> final(self).selected_name() == old(self).selected_name(),
    {
        if self.contains(name) {
            self.selected = name.clone();
            true
        } else {
            false
        }
    }

    /// Rename a wallet, keeping its position and key. Succeeds exactly
    /// when the new name is non-empty, the old name exists, and the new
    /// name is free (or is the old name itself). A selected wallet
    /// stays selected under its new name.
    pub fn rename(&mut self, from: &String, to: String) -> (r: bool)
        requires
            old(self).wf(),
        ensures
            final(self).wf(),
            r == (to@.len() > 0 && old(self).has(from@) && (!old(self).has(to@) || to@ == from@)),
            !r ==> final(self)@ == old(self)@ && final(self).selected_name() == old(self).selected_name(),
            r ==> exists|i: int|
                {
                    &&& 0 <= i < old(self)@.len()
                    &&& old(self)@[i].0 == from@
                    &&& final(self)@ == old(self)@.update(i, (to@, old(self)@[i].1))
                },
            r && old(self).selected_name() == from@ ==> final(self).selected_name() == to@,
            r && old(self).selected_name() != from@ ==> final(self).selected_name() == old(self).selected_name(),
    {
        if to.as_str().is_empty() {
            return false;
        }
        let taken = self.contains(&to);
        let same = to == *from;
        if taken && !same {
            return false;
        }
        let i = match self.position_of(from) {
            Some(i) => i,
            None => {
                return false;
            },
        };
        let ghost pre = self@;
        let key = self.entries[i].1;
        if self.selected == *from {
            self.selected = to.clone();
        }
        self.entries.remove(i);
        self.entries.insert(i, (to, key));
        proof {
            assert(self@ =~= pre.update(i as int, (to@, pre[i as int].1)));
            assert forall|x: int, y: int| 0 <= x < y < self@.len() implies (
            #[trigger] self@[x]).0 != (#[trigger] self@[y]).0 by {
                if self@[x].0 == self@[y].0 {
                    if x != i && y != i {
                        assert(pre[x].0 == pre[y].0);
                    } else {
                        let other: int = if x == i {
                            y
                        } else {
                            x
                        };
                        assert(pre[other].0 == to@);
                        assert(old(self).has(to@)) by {
                            assert(pre[other].0 == to@);
                        }
                        assert(to@ == from@);
                        assert(pre[other].0 == pre[i as int].0);
                    }
                }
            }
        }
        true
    }

    /// Delete a wallet. Succeeds exactly when it exists. When the
    /// deleted wallet was the selected one, the first remaining wallet
    /// becomes selected, or the selection empties with the list.
    pub fn remove(&mut self, name: &String) -> (r: bool)
        requires
            old(self).wf(),
        ensures
            final(self).wf(),
            r == old(self).has(name@),
            !r ==> final(self)@ == old(self)@ && final(self).selected_name() == old(self).selected_name(),
            r ==> exists|i: int|
                {
                    &&& 0 <= i < old(self)@.len()
                    &&& old(self)@[i].0 == name@
                    &&& final(self)@ == old(self)@.remove(i)
                },
            r && old(self).selected_name() != name@ ==> final(self).selected_name() == old(self).selected_name(),
            r && old(self).selected_name() == name@ && final(self)@.len() > 0 ==> final(self).selected_name() == final(self)@[0].0,
            r && old(self).selected_name() == name@ && final(self)@.len() == 0 ==> final(self).selected_name() == Seq::<char>::empty(),
    {
        let i = match self.position_of(name) {
            Some(i) => i,
            None => {
                return false;
            },
        };
        let ghost pre = self@;
        self.entries.remove(i);
        proof {
            assert(self@ =~= pre.remove(i as int));
            assert forall|x: int, y: int| 0 <= x < y < self@.len() implies (
            #[trigger] self@[x]).0 != (#[trigger] self@[y]).0 by {
                let px: int = if x < i {
                    x
                } else {
                    x + 1
                };
                let py: int = if y < i {
                    y
                } else {
                    y + 1
                };
                assert(self@[x] == pre[px] && self@[y] == pre[py]);
            }
        }
        if self.selected == *name {
            if self.entries.len() > 0 {
                let (first, _) = &self.entries[0];
                self.selected = first.clone();
            } else {
                self.selected = String::new();
            }
        }
        true
    }
}

} // verus!
