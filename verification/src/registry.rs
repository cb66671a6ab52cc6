//! Strategies by name.

use vstd::prelude::*;
use crate::error::TransformError;
use crate::strategy::Strategy;

verus! {

/// Whether some entry carries the name.
pub open spec fn has_name(entries: Seq<(Seq<char>, Strategy)>, name: Seq<char>) -> bool {
    exists|i: int| 0 <= i < entries.len() && (#[trigger] entries[i]).0 == name
}

/// The position of an entry that carries the name.
pub open spec fn position(entries: Seq<(Seq<char>, Strategy)>, name: Seq<char>) -> int {
    choose|i: int| 0 <= i < entries.len() && (#[trigger] entries[i]).0 == name
}

/// The strategy registered under the name, if there is one.
pub open spec fn lookup(entries: Seq<(Seq<char>, Strategy)>, name: Seq<char>) -> Option<
    Strategy,
> {
    if has_name(entries, name) {
        Some(entries[position(entries, name)].1)
    } else {
        None
    }
}

/// No two entries carry the same name.
pub open spec fn distinct_names(entries: Seq<(Seq<char>, Strategy)>) -> bool {
    forall|i: int, j: int|
        0 <= i < j < entries.len() ==> (#[trigger] entries[i]).0 != (#[trigger] entries[j]).0
}

/// The entries after `name` was registered for `strategy`: an entry of that
/// name is overwritten where it stands, a new name goes to the end.
pub open spec fn registered(
    entries: Seq<(Seq<char>, Strategy)>,
    name: Seq<char>,
    strategy: Strategy,
) -> Seq<(Seq<char>, Strategy)> {
    if has_name(entries, name) {
        entries.update(position(entries, name), (name, strategy))
    } else {
        entries.push((name, strategy))
    }
}

/// The names of the entries, in their order.
pub open spec fn names_of(entries: Seq<(Seq<char>, Strategy)>) -> Seq<Seq<char>> {
    Seq::new(entries.len(), |i: int| entries[i].0)
}

/// The four entries that `StrategyRegistry::with_defaults` registers.
pub open spec fn default_entries() -> Seq<(Seq<char>, Strategy)> {
    seq![
        ("OpenCV::convertTo"@, Strategy::Baseline),
        ("Own (Sequential)"@, Strategy::Sequential),
        ("Own (Parallel)"@, Strategy::FlatParallel),
        ("Own (Parallel Rows)"@, Strategy::RowChunkedParallel),
    ]
}

/// A mapping from names to strategies that remembers the order in which the
/// names first came.
#[derive(Debug)]
pub struct StrategyRegistry {
    entries: Vec<(String, Strategy)>,
}

impl View for StrategyRegistry {
    type V = Seq<(Seq<char>, Strategy)>;

    closed spec fn view(&self) -> Seq<(Seq<char>, Strategy)> {
        Seq::new(self.entries@.len(), |i: int| (self.entries@[i].0@, self.entries@[i].1))
    }
}

impl StrategyRegistry {
    /// Every name occurs once.
    pub open spec fn wf(&self) -> bool {
        distinct_names(self@)
    }

    /// A registry without entries.
    pub fn new() -> (registry: StrategyRegistry)
        ensures
            registry.wf(),
            registry@ == Seq::<(Seq<char>, Strategy)>::empty(),
    {
        let registry = StrategyRegistry { entries: Vec::new() };
        assert(registry@ =~= Seq::<(Seq<char>, Strategy)>::empty());
        registry
    }

    /// The position of the entry that carries the name, or the number of
    /// entries if there is none.
    fn find(&self, name: &String) -> (at: usize)
        requires
            self.wf(),
        ensures
            at <= self@.len(),
            at == self.entries@.len() <==> !has_name(self@, name@),
            at < self@.len() ==> self@[at as int].0 == name@ && position(self@, name@) == at,
    {
        let mut i: usize = 0;
        while i < self.entries.len()
            invariant
                self.wf(),
                i <= self.entries@.len(),
                self@.len() == self.entries@.len(),
                forall|j: int| 0 <= j < i ==> (#[trigger] self@[j]).0 != name@,
            decreases self.entries@.len() - i,
        {
            if self.entries[i].0 == *name {
                proof {
                    assert(self@[i as int].0 == name@);
                    let p = position(self@, name@);
                    assert(0 <= p < self@.len() && self@[p].0 == name@);
                    if p < i {
                        assert(self@[p].0 != self@[i as int].0);
                    } else if i < p {
                        assert(self@[i as int].0 != self@[p].0);
                    }
                }
                return i;
            }
            i += 1;
        }
        i
    }

    /// Registers `strategy` under `name`. A strategy that was registered
    /// under the same name before is replaced.
    pub fn register(&mut self, name: &str, strategy: Strategy)
        requires
            old(self).wf(),
        ensures
            final(self).wf(),
            final(self)@ == registered(old(self)@, name@, strategy),
    {
        let owned = name.to_owned();
        let at = self.find(&owned);
        let ghost before = self@;
        if at < self.entries.len() {
            self.entries.set(at, (owned, strategy));
            assert(self@ =~= before.update(at as int, (name@, strategy)));
        } else {
            self.entries.push((owned, strategy));
            assert(self@ =~= before.push((name@, strategy)));
        }
    }

    /// The strategy registered under `name`, or `None` if there is none.
    pub fn get(&self, name: &str) -> (found: Option<Strategy>)
        requires
            self.wf(),
        ensures
            found == lookup(self@, name@),
    {
        let owned = name.to_owned();
        let at = self.find(&owned);
        if at < self.entries.len() {
            Some(self.entries[at].1)
        } else {
            None
        }
    }

    /// The strategy registered under `name`, or `StrategyNotFound`.
    pub fn resolve(&self, name: &str) -> (found: Result<Strategy, TransformError>)
        requires
            self.wf(),
        ensures
            found == match lookup(self@, name@) {
                Some(strategy) => Ok::<Strategy, TransformError>(strategy),
                None => Err::<Strategy, TransformError>(TransformError::StrategyNotFound),
            },
    {
        match self.get(name) {
            Some(strategy) => Ok(strategy),
            None => Err(TransformError::StrategyNotFound),
        }
    }

    /// The registered names, in the order in which each first came.
    pub fn names(&self) -> (names: Vec<String>)
        ensures
            names@.len() == self@.len(),
            forall|i: int| 0 <= i < names@.len() ==> (#[trigger] names@[i])@ == names_of(self@)[i],
    {
        let mut names: Vec<String> = Vec::new();
        let mut i: usize = 0;
        while i < self.entries.len()
            invariant
                i <= self.entries@.len(),
                names@.len() == i,
                self@.len() == self.entries@.len(),
                forall|j: int| 0 <= j < i ==> (#[trigger] names@[j])@ == self@[j].0,
            decreases self.entries@.len() - i,
        {
            names.push(self.entries[i].0.clone());
            i += 1;
        }
        names
    }

    /// The registered strategies, in the order of their names.
    pub fn strategies(&self) -> (strategies: Vec<Strategy>)
        ensures
            strategies@.len() == self@.len(),
            forall|i: int| 0 <= i < strategies@.len() ==> #[trigger] strategies@[i] == self@[i].1,
    {
        let mut strategies: Vec<Strategy> = Vec::new();
        let mut i: usize = 0;
        while i < self.entries.len()
            invariant
                i <= self.entries@.len(),
                strategies@.len() == i,
                self@.len() == self.entries@.len(),
                forall|j: int| 0 <= j < i ==> #[trigger] strategies@[j] == self@[j].1,
            decreases self.entries@.len() - i,
        {
            strategies.push(self.entries[i].1);
            i += 1;
        }
        strategies
    }

    /// Number of registered names.
    pub fn len(&self) -> (count: usize)
        ensures
            count == self@.len(),
    {
        self.entries.len()
    }

    /// A registry that holds every strategy under its own name.
    pub fn with_defaults() -> (registry: StrategyRegistry)
        ensures
            registry.wf(),
            registry@ == default_entries(),
    {
        let mut registry = StrategyRegistry::new();
        proof {
            reveal_strlit("OpenCV::convertTo");
            reveal_strlit("Own (Sequential)");
            reveal_strlit("Own (Parallel)");
            reveal_strlit("Own (Parallel Rows)");
        }
        proof {
            assert("OpenCV::convertTo"@.len() == 17);
            assert("Own (Sequential)"@.len() == 16);
            assert("Own (Parallel)"@.len() == 14);
            assert("Own (Parallel Rows)"@.len() == 19);
        }
        registry.register(Strategy::Baseline.name(), Strategy::Baseline);
        assert(registry@ =~= default_entries().take(1));
        registry.register(Strategy::Sequential.name(), Strategy::Sequential);
        assert(registry@ =~= default_entries().take(2));
        registry.register(Strategy::FlatParallel.name(), Strategy::FlatParallel);
        assert(registry@ =~= default_entries().take(3));
        registry.register(Strategy::RowChunkedParallel.name(), Strategy::RowChunkedParallel);
        assert(registry@ =~= default_entries());
        registry
    }
}

} // verus!
