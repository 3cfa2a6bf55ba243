//! The binding table: the names that a program has defined, each with the
//! value it is bound to.

use vstd::prelude::*;
use crate::esotypes::{Var, VarView};

verus! {

/// A name and the value bound to it.
#[derive(Debug, PartialEq, Eq)]
pub struct Binding {
    pub name: String,
    pub var: Var,
}

/// The mathematical content of a binding.
pub struct BindingView {
    pub name: Seq<char>,
    pub var: VarView,
}

impl View for Binding {
    type V = BindingView;

    open spec fn view(&self) -> BindingView {
        BindingView { name: self.name@, var: self.var@ }
    }
}

/// The views of a sequence of bindings, one for one.
pub open spec fn entry_views(entries: Seq<Binding>) -> Seq<BindingView> {
    Seq::new(entries.len(), |i: int| entries[i]@)
}

/// Whether the entry at `i` holds `name`.
pub open spec fn holds(entries: Seq<BindingView>, i: int, name: Seq<char>) -> bool {
    entries[i].name == name
}

/// The place of the first entry at or behind `from` that holds `name`; the
/// number of entries, if none does.
pub open spec fn find_name(entries: Seq<BindingView>, name: Seq<char>, from: int) -> int
    decreases entries.len() - from,
{
    if from < 0 || from >= entries.len() {
        entries.len() as int
    } else if holds(entries, from, name) {
        from
    } else {
        find_name(entries, name, from + 1)
    }
}

/// The map that a sequence of bindings stands for: a name is bound if an
/// entry holds it, and then to the value of the first such entry.
pub open spec fn table_of(entries: Seq<BindingView>) -> Map<Seq<char>, VarView> {
    Map::new(
        |name: Seq<char>| find_name(entries, name, 0) < entries.len(),
        |name: Seq<char>| entries[find_name(entries, name, 0)].var,
    )
}

/// What `find_name` finds is the first entry that holds the name.
pub proof fn lemma_find_name(entries: Seq<BindingView>, name: Seq<char>, from: int)
    requires
        0 <= from <= entries.len(),
    ensures
        from <= find_name(entries, name, from) <= entries.len(),
        forall|j: int| from <= j < find_name(entries, name, from) ==> !#[trigger] holds(entries, j, name),
        find_name(entries, name, from) < entries.len() ==> holds(
            entries,
            find_name(entries, name, from),
            name,
        ),
    decreases entries.len() - from,
{
    if from < entries.len() && !holds(entries, from, name) {
        lemma_find_name(entries, name, from + 1);
    }
}

/// `find_name` finds `at` if no entry from `from` up to `at` holds the name
/// and the entry at `at` does, or `at` is the end.
pub proof fn lemma_find_name_is(entries: Seq<BindingView>, name: Seq<char>, from: int, at: int)
    requires
        0 <= from <= at <= entries.len(),
        forall|j: int| from <= j < at ==> !#[trigger] holds(entries, j, name),
        at < entries.len() ==> holds(entries, at, name),
    ensures
        find_name(entries, name, from) == at,
    decreases at - from,
{
    if from < at {
        assert(!holds(entries, from, name));
        lemma_find_name_is(entries, name, from + 1, at);
    }
}

/// Whether the entries at `i` and `j` hold the same name.
pub open spec fn same_name(entries: Seq<BindingView>, i: int, j: int) -> bool {
    entries[i].name == entries[j].name
}

/// Whether no two entries hold the same name.
pub open spec fn names_differ(entries: Seq<BindingView>) -> bool {
    forall|i: int, j: int| 0 <= i < j < entries.len() ==> !#[trigger] same_name(entries, i, j)
}

/// The names that a program has defined, each with its value. `define`
/// keeps one entry for each name.
#[derive(Debug, PartialEq, Eq)]
pub struct BindingTable {
    pub entries: Vec<Binding>,
}

impl View for BindingTable {
    type V = Map<Seq<char>, VarView>;

    open spec fn view(&self) -> Map<Seq<char>, VarView> {
        table_of(entry_views(self.entries@))
    }
}

impl Clone for Binding {
    fn clone(&self) -> (r: Binding)
        ensures
            r@ == self@,
    {
        Binding { name: self.name.clone(), var: self.var.clone() }
    }
}

impl Clone for BindingTable {
    fn clone(&self) -> (r: BindingTable)
        ensures
            entry_views(r.entries@) == entry_views(self.entries@),
            r@ == self@,
    {
        let mut entries: Vec<Binding> = Vec::new();
        let mut i: usize = 0;
        while i < self.entries.len()
            invariant
                i <= self.entries.len(),
                entries.len() == i,
                forall|j: int| 0 <= j < i ==> entries[j]@ == self.entries[j]@,
            decreases self.entries.len() - i,
        {
            entries.push(self.entries[i].clone());
            i += 1;
        }
        assert(entry_views(entries@) =~= entry_views(self.entries@));
        BindingTable { entries }
    }
}

impl BindingTable {
    /// Whether no name has more than one entry.
    pub open spec fn names_unique(&self) -> bool {
        names_differ(entry_views(self.entries@))
    }

    /// The table that binds no name.
    pub fn new() -> (table: BindingTable)
        ensures
            table@ == Map::<Seq<char>, VarView>::empty(),
            table.names_unique(),
    {
        let table = BindingTable { entries: Vec::new() };
        assert(table@ =~= Map::<Seq<char>, VarView>::empty());
        table
    }

    /// The place of the first entry that holds `name`; the number of
    /// entries, if none does.
    fn position(&self, name: &String) -> (at: usize)
        ensures
            at == find_name(entry_views(self.entries@), name@, 0),
    {
        let ghost views = entry_views(self.entries@);
        let mut i: usize = 0;
        while i < self.entries.len()
            invariant
                i <= self.entries.len(),
                views == entry_views(self.entries@),
                forall|j: int| 0 <= j < i ==> !#[trigger] holds(views, j, name@),
            decreases self.entries.len() - i,
        {
            if self.entries[i].name == *name {
                proof {
                    assert(holds(views, i as int, name@));
                    lemma_find_name_is(views, name@, 0, i as int);
                }
                return i;
            }
            assert(!holds(views, i as int, name@));
            i += 1;
        }
        proof {
            lemma_find_name_is(views, name@, 0, i as int);
        }
        i
    }

    /// The value bound to `name`, if the name is bound.
    pub fn lookup(&self, name: &String) -> (found: Option<&Var>)
        ensures
            match found {
                Some(var) => self@.contains_key(name@) && self@[name@] == var@,
                None => !self@.contains_key(name@),
            },
    {
        let at = self.position(name);
        if at < self.entries.len() {
            Some(&self.entries[at].var)
        } else {
            None
        }
    }

    /// Binds `name` to `var`. What the name was bound to before is given up;
    /// every other name keeps its value.
    pub fn define(&mut self, name: String, var: Var)
        ensures
            final(self)@ == old(self)@.insert(name@, var@),
            old(self).names_unique() ==> final(self).names_unique(),
    {
        let at = self.position(&name);
        let ghost before = entry_views(self.entries@);
        let ghost added = BindingView { name: name@, var: var@ };
        proof {
            lemma_find_name(before, added.name, 0);
        }
        if at < self.entries.len() {
            self.entries[at] = Binding { name, var };
        } else {
            self.entries.push(Binding { name, var });
        }
        proof {
            let now = entry_views(self.entries@);
            assert(now.len() >= before.len());
            assert(now[at as int] == added);
            assert forall|j: int| 0 <= j < before.len() && j != at implies now[j] == before[j] by {}
            assert forall|n: Seq<char>|
                table_of(now).contains_key(n) == (#[trigger] table_of(before).insert(
                    added.name,
                    added.var,
                ).contains_key(n)) && (table_of(now).contains_key(n) ==> table_of(now)[n]
                    == table_of(before).insert(added.name, added.var)[n]) by {
                lemma_find_name(before, n, 0);
                let k = find_name(before, n, 0);
                if n == added.name {
                    assert(k == at);
                    assert forall|j: int| 0 <= j < at implies !#[trigger] holds(now, j, n) by {
                        assert(!holds(before, j, n));
                    }
                    assert(holds(now, at as int, n));
                    lemma_find_name_is(now, n, 0, at as int);
                } else {
                    let k2 = if k < before.len() { k } else { now.len() as int };
                    assert forall|j: int| 0 <= j < k2 implies !#[trigger] holds(now, j, n) by {
                        if j < before.len() && j != at {
                            assert(!holds(before, j, n));
                        }
                    }
                    if k < before.len() {
                        assert(holds(before, k, n));
                        assert(k != at);
                        assert(holds(now, k, n));
                    }
                    lemma_find_name_is(now, n, 0, k2);
                }
            }
            assert(table_of(now) =~= table_of(before).insert(added.name, added.var));
            if names_differ(before) {
                assert forall|i: int, j: int| 0 <= i < j < now.len() implies !#[trigger] same_name(
                    now,
                    i,
                    j,
                ) by {
                    if j < before.len() {
                        assert(!same_name(before, i, j));
                        if i == at {
                            assert(holds(before, at as int, added.name));
                        } else if j == at {
                            assert(!holds(before, i, added.name));
                        }
                    } else {
                        assert(!holds(before, i, added.name));
                    }
                }
            }
        }
    }
}

} // verus!
