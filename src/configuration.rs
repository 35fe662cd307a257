use vstd::prelude::*;
use crate::error::ConfigurationError;
use crate::tree::{merge_all, merge_trees, refs_view, ConfigurationTree, TreeView};

verus! {

/// One tree, as collected from one source.
#[derive(Debug)]
pub struct ConfigurationDefinition {
    pub root: ConfigurationTree,
}

impl ConfigurationDefinition {
    pub fn new(root: ConfigurationTree) -> (r: ConfigurationDefinition)
        ensures
            r.root@ == root@,
    {
        ConfigurationDefinition { root }
    }
}

/// The trees of every source, in the order in which the sources were registered.
#[derive(Debug)]
pub struct Configuration {
    pub roots: Vec<ConfigurationDefinition>,
}

pub open spec fn definitions_view(ds: Seq<ConfigurationDefinition>) -> Seq<TreeView> {
    ds.map_values(|d: ConfigurationDefinition| d.root@)
}

impl View for Configuration {
    type V = Seq<TreeView>;

    open spec fn view(&self) -> Seq<TreeView> {
        definitions_view(self.roots@)
    }
}

impl Default for Configuration {
    fn default() -> (r: Configuration)
        ensures
            r@ == Seq::<TreeView>::empty(),
    {
        Configuration::new()
    }
}

impl Configuration {
    /// A configuration without any tree.
    pub fn new() -> (r: Configuration)
        ensures
            r@ == Seq::<TreeView>::empty(),
    {
        let r = Configuration { roots: Vec::new() };
        assert(r@ =~= Seq::<TreeView>::empty());
        r
    }

    /// A configuration of the one tree `root`.
    pub fn from_tree(root: ConfigurationTree) -> (r: Configuration)
        ensures
            r@ == seq![root@],
    {
        let mut roots: Vec<ConfigurationDefinition> = Vec::new();
        roots.push(ConfigurationDefinition::new(root));
        let r = Configuration { roots };
        assert(r@ =~= seq![root@]);
        r
    }

    /// Appends the trees of `other` after those of `self`, keeping their order.
    pub fn append(&mut self, other: Configuration)
        ensures
            final(self)@ == old(self)@ + other@,
    {
        let mut other = other;
        let ghost first = self@;
        let ghost second = other@;
        self.roots.append(&mut other.roots);
        assert(self@ =~= first + second);
    }

    /// Merges every tree, later trees taking precedence; fails when there is none.
    pub fn merge_cloned(&self) -> (r: Result<ConfigurationTree, ConfigurationError>)
        ensures
            match merge_all(self@) {
                Some(m) => r matches Ok(t) && t@ == m,
                None => r == Err::<ConfigurationTree, ConfigurationError>(ConfigurationError::NoRoots),
            },
    {
        let mut refs: Vec<&ConfigurationTree> = Vec::new();
        let mut i: usize = 0;
        while i < self.roots.len()
            invariant
                i <= self.roots@.len(),
                refs_view(refs@) == self@.subrange(0, i as int),
            decreases self.roots@.len() - i,
        {
            let ghost before = refs@;
            refs.push(&self.roots[i].root);
            assert(refs_view(refs@) =~= refs_view(before).push(self.roots@[i as int].root@));
            i = i + 1;
            assert(refs_view(refs@) =~= self@.subrange(0, i as int));
        }
        assert(self@.subrange(0, i as int) =~= self@);
        merge_trees(&refs)
    }
}

/// One step of building: the fragment collected from the next provider is
/// appended to what was collected so far, or its error ends the build.
pub fn absorb(
    acc: Configuration,
    fragment: Result<Configuration, ConfigurationError>,
) -> (r: Result<Configuration, ConfigurationError>)
    ensures
        match fragment {
            Ok(f) => r matches Ok(c) && c@ == acc@ + f@,
            Err(e) => r == Err::<Configuration, ConfigurationError>(e),
        },
{
    match fragment {
        Ok(f) => {
            let mut acc = acc;
            acc.append(f);
            Ok(acc)
        },
        Err(e) => Err(e),
    }
}

} // verus!
