//! The extension registry: which native modules are loaded, by the paths
//! they were imported under. The modules themselves are in the hands of
//! whoever loads them; the registry holds their keys, in the order of loading.

use vstd::prelude::*;

verus! {

/// The paths of `paths`, one for one.
pub open spec fn path_views(paths: Seq<String>) -> Seq<Seq<char>> {
    Seq::new(paths.len(), |i: int| paths[i]@)
}

/// The registry after `path` was loaded: a path that is new comes last, one
/// that was loaded before keeps its place, so that loading it again puts
/// the new module in the place of the old one.
pub open spec fn register(modules: Seq<Seq<char>>, path: Seq<char>) -> Seq<Seq<char>> {
    if modules.contains(path) {
        modules
    } else {
        modules.push(path)
    }
}

/// The keys of the loaded native modules.
#[derive(Debug, PartialEq, Eq)]
pub struct ExtensionRegistry {
    pub paths: Vec<String>,
}

impl View for ExtensionRegistry {
    type V = Seq<Seq<char>>;

    open spec fn view(&self) -> Seq<Seq<char>> {
        path_views(self.paths@)
    }
}

impl Clone for ExtensionRegistry {
    fn clone(&self) -> (r: ExtensionRegistry)
        ensures
            r@ == self@,
    {
        let mut paths: Vec<String> = Vec::new();
        let mut i: usize = 0;
        while i < self.paths.len()
            invariant
                i <= self.paths.len(),
                paths.len() == i,
                forall|j: int| 0 <= j < i ==> paths[j]@ == self.paths[j]@,
            decreases self.paths.len() - i,
        {
            paths.push(self.paths[i].clone());
            i += 1;
        }
        let r = ExtensionRegistry { paths };
        assert(r@ =~= self@);
        r
    }
}

impl ExtensionRegistry {
    /// The registry with no module loaded.
    pub fn new() -> (r: ExtensionRegistry)
        ensures
            r@ == Seq::<Seq<char>>::empty(),
    {
        let r = ExtensionRegistry { paths: Vec::new() };
        assert(r@ =~= Seq::<Seq<char>>::empty());
        r
    }

    /// How many modules are loaded.
    pub fn len(&self) -> (n: usize)
        ensures
            n == self@.len(),
    {
        self.paths.len()
    }

    /// Whether a module is loaded under `path`.
    pub fn contains(&self, path: &String) -> (b: bool)
        ensures
            b == self@.contains(path@),
    {
        let mut i: usize = 0;
        while i < self.paths.len()
            invariant
                i <= self.paths.len(),
                forall|j: int| 0 <= j < i ==> self@[j] != path@,
            decreases self.paths.len() - i,
        {
            if self.paths[i] == *path {
                assert(self@[i as int] == path@);
                return true;
            }
            i += 1;
        }
        false
    }

    /// Records that a module was loaded under `path`.
    pub fn register(&mut self, path: String)
        ensures
            final(self)@ == register(old(self)@, path@),
    {
        if !self.contains(&path) {
            self.paths.push(path);
            assert(self@ =~= old(self)@.push(path@));
        }
    }
}

} // verus!
