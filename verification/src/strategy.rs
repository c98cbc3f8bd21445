//! The three criteria that make up a scheduling strategy, their names, and
//! the scheduler parameters they are read from.
use vstd::prelude::*;

verus! {

/// Whether `a` and `b` hold the same text.
pub fn str_eq(a: &str, b: &str) -> (r: bool)
    ensures
        r == (a@ == b@),
{
    let a_owned: String = a.to_owned();
    let b_owned: String = b.to_owned();
    a_owned == b_owned
}

/// A name that no variant has.
#[derive(Clone, Copy, Debug, PartialEq, Eq, Structural)]
pub enum ParseError {
    VariantNotFound,
}

/// How the processor task queues are searched for a task.
#[derive(Clone, Copy, Debug, PartialEq, Eq, Structural)]
pub enum PTQNavigationCriterion {
    /// Validate all tasks of the current processor's task queue (PTQ_k[0...n])
    /// before looking at the next processor's task queue (PTQ_{k+1}[0...n]).
    Whole,
    /// Only validate the task at the front of the current processor's task
    /// queue (PTQ_k[0]) before looking at the next processor's task queue
    /// (PTQ_{k+1}[0]).
    Front,
}

/// How the tasks are sorted before they are dealt out to the queues.
#[derive(Clone, Copy, Debug, PartialEq, Eq, Structural)]
pub enum TaskSortingCriterion {
    /// Kahn's topological sorting algorithm.
    Khan,
    /// Depth-first-search topological sort.
    DFS,
}

/// How the cores of a processor are filled.
#[derive(Clone, Copy, Debug, PartialEq, Eq, Structural)]
pub enum MultiCoreCriterion {
    /// A processor that is active is skipped: one task at a time per
    /// processor.
    SkipActiveNodes,
    /// Fill up all the cores of a processor even while it is active.
    UseAllCores,
}

impl PTQNavigationCriterion {
    pub open spec fn spec_name(self) -> Seq<char> {
        match self {
            PTQNavigationCriterion::Whole => "Whole"@,
            PTQNavigationCriterion::Front => "Front"@,
        }
    }

    /// The variant named `s`.
    pub open spec fn parse_name(s: Seq<char>) -> Result<Self, ParseError> {
        if s == "Whole"@ {
            Ok(PTQNavigationCriterion::Whole)
        } else if s == "Front"@ {
            Ok(PTQNavigationCriterion::Front)
        } else {
            Err(ParseError::VariantNotFound)
        }
    }

    /// The variant named `s`.
    pub fn from_str(s: &str) -> (r: Result<Self, ParseError>)
        ensures
            r == Self::parse_name(s@),
    {
        if str_eq(s, "Whole") {
            Ok(PTQNavigationCriterion::Whole)
        } else if str_eq(s, "Front") {
            Ok(PTQNavigationCriterion::Front)
        } else {
            Err(ParseError::VariantNotFound)
        }
    }

    /// The name of the variant.
    pub fn to_string(&self) -> (r: String)
        ensures
            r@ == self.spec_name(),
    {
        match self {
            PTQNavigationCriterion::Whole => "Whole".to_owned(),
            PTQNavigationCriterion::Front => "Front".to_owned(),
        }
    }

    /// All variants, in declaration order.
    pub fn iter() -> (r: Vec<Self>)
        ensures
            r@ == seq![PTQNavigationCriterion::Whole, PTQNavigationCriterion::Front],
    {
        vec![PTQNavigationCriterion::Whole, PTQNavigationCriterion::Front]
    }
}

impl TaskSortingCriterion {
    pub open spec fn spec_name(self) -> Seq<char> {
        match self {
            TaskSortingCriterion::Khan => "Khan"@,
            TaskSortingCriterion::DFS => "DFS"@,
        }
    }

    /// The variant named `s`.
    pub open spec fn parse_name(s: Seq<char>) -> Result<Self, ParseError> {
        if s == "Khan"@ {
            Ok(TaskSortingCriterion::Khan)
        } else if s == "DFS"@ {
            Ok(TaskSortingCriterion::DFS)
        } else {
            Err(ParseError::VariantNotFound)
        }
    }

    /// The variant named `s`.
    pub fn from_str(s: &str) -> (r: Result<Self, ParseError>)
        ensures
            r == Self::parse_name(s@),
    {
        if str_eq(s, "Khan") {
            Ok(TaskSortingCriterion::Khan)
        } else if str_eq(s, "DFS") {
            Ok(TaskSortingCriterion::DFS)
        } else {
            Err(ParseError::VariantNotFound)
        }
    }

    /// The name of the variant.
    pub fn to_string(&self) -> (r: String)
        ensures
            r@ == self.spec_name(),
    {
        match self {
            TaskSortingCriterion::Khan => "Khan".to_owned(),
            TaskSortingCriterion::DFS => "DFS".to_owned(),
        }
    }

    /// All variants, in declaration order.
    pub fn iter() -> (r: Vec<Self>)
        ensures
            r@ == seq![TaskSortingCriterion::Khan, TaskSortingCriterion::DFS],
    {
        vec![TaskSortingCriterion::Khan, TaskSortingCriterion::DFS]
    }
}

impl MultiCoreCriterion {
    pub open spec fn spec_name(self) -> Seq<char> {
        match self {
            MultiCoreCriterion::SkipActiveNodes => "SkipActiveNodes"@,
            MultiCoreCriterion::UseAllCores => "UseAllCores"@,
        }
    }

    /// The variant named `s`.
    pub open spec fn parse_name(s: Seq<char>) -> Result<Self, ParseError> {
        if s == "SkipActiveNodes"@ {
            Ok(MultiCoreCriterion::SkipActiveNodes)
        } else if s == "UseAllCores"@ {
            Ok(MultiCoreCriterion::UseAllCores)
        } else {
            Err(ParseError::VariantNotFound)
        }
    }

    /// The variant named `s`.
    pub fn from_str(s: &str) -> (r: Result<Self, ParseError>)
        ensures
            r == Self::parse_name(s@),
    {
        if str_eq(s, "SkipActiveNodes") {
            Ok(MultiCoreCriterion::SkipActiveNodes)
        } else if str_eq(s, "UseAllCores") {
            Ok(MultiCoreCriterion::UseAllCores)
        } else {
            Err(ParseError::VariantNotFound)
        }
    }

    /// The name of the variant.
    pub fn to_string(&self) -> (r: String)
        ensures
            r@ == self.spec_name(),
    {
        match self {
            MultiCoreCriterion::SkipActiveNodes => "SkipActiveNodes".to_owned(),
            MultiCoreCriterion::UseAllCores => "UseAllCores".to_owned(),
        }
    }

    /// All variants, in declaration order.
    pub fn iter() -> (r: Vec<Self>)
        ensures
            r@ == seq![MultiCoreCriterion::SkipActiveNodes, MultiCoreCriterion::UseAllCores],
    {
        vec![MultiCoreCriterion::SkipActiveNodes, MultiCoreCriterion::UseAllCores]
    }
}

/// Each variant of each criterion is parsed back from its name.
pub proof fn law_names_round_trip(
    navigation: PTQNavigationCriterion,
    sorting: TaskSortingCriterion,
    multicore: MultiCoreCriterion,
)
    ensures
        PTQNavigationCriterion::parse_name(navigation.spec_name()) == Ok::<PTQNavigationCriterion, ParseError>(navigation),
        TaskSortingCriterion::parse_name(sorting.spec_name()) == Ok::<TaskSortingCriterion, ParseError>(sorting),
        MultiCoreCriterion::parse_name(multicore.spec_name()) == Ok::<MultiCoreCriterion, ParseError>(multicore),
{
    reveal_strlit("Whole");
    reveal_strlit("Front");
    reveal_strlit("Khan");
    reveal_strlit("DFS");
    reveal_strlit("SkipActiveNodes");
    reveal_strlit("UseAllCores");
    assert("Front"@[0] != "Whole"@[0]);
    assert("DFS"@.len() != "Khan"@.len());
    assert("UseAllCores"@.len() != "SkipActiveNodes"@.len());
}

/// Named scheduler parameters: text values under text keys.
pub struct SchedulerParams {
    name: String,
    params: Vec<(String, String)>,
}

/// The value last set under `key` among `params`.
pub open spec fn lookup(params: Seq<(Seq<char>, Seq<char>)>, key: Seq<char>) -> Option<Seq<char>>
    decreases params.len(),
{
    if params.len() == 0 {
        None
    } else if params.last().0 == key {
        Some(params.last().1)
    } else {
        lookup(params.drop_last(), key)
    }
}

impl SchedulerParams {
    /// The scheduler name.
    pub closed spec fn spec_name(&self) -> Seq<char> {
        self.name@
    }

    /// The parameters, in the order they were set.
    pub closed spec fn entries(&self) -> Seq<(Seq<char>, Seq<char>)> {
        Seq::new(self.params@.len(), |i: int| (self.params@[i].0@, self.params@[i].1@))
    }

    /// The value of the parameter `key`, if it is set.
    pub open spec fn value(&self, key: Seq<char>) -> Option<Seq<char>> {
        lookup(self.entries(), key)
    }

    /// Parameters of the scheduler `name`, none set yet.
    pub fn new(name: &str) -> (p: Self)
        ensures
            p.spec_name() == name@,
            forall|key: Seq<char>| #[trigger] p.value(key).is_none(),
    {
        let p = SchedulerParams { name: name.to_owned(), params: Vec::new() };
        assert(p.entries() =~= Seq::empty());
        p
    }

    /// The scheduler name.
    pub fn name(&self) -> (r: &str)
        ensures
            r@ == self.spec_name(),
    {
        self.name.as_str()
    }

    /// Sets the parameter `key` to `value`.
    pub fn set(&mut self, key: &str, value: &str)
        ensures
            final(self).spec_name() == old(self).spec_name(),
            final(self).value(key@) == Some(value@),
            forall|other: Seq<char>|
                other != key@ ==> #[trigger] final(self).value(other) == old(self).value(other),
    {
        let ghost before = self.entries();
        self.params.push((key.to_owned(), value.to_owned()));
        assert(self.entries().drop_last() =~= before);
    }

    /// The value of the parameter `key`, if it is set.
    pub fn get(&self, key: &str) -> (r: Option<String>)
        ensures
            r.is_some() == self.value(key@).is_some(),
            r.is_some() ==> r.unwrap()@ == self.value(key@).unwrap(),
    {
        let mut i: usize = self.params.len();
        assert(self.entries().take(i as int) =~= self.entries());
        while i > 0
            invariant
                i <= self.params@.len(),
                lookup(self.entries(), key@) == lookup(self.entries().take(i as int), key@),
            decreases i,
        {
            let entry = &self.params[i - 1];
            assert(self.entries().take(i as int).drop_last() =~= self.entries().take(i - 1));
            if str_eq(entry.0.as_str(), key) {
                return Some(entry.1.clone());
            }
            i = i - 1;
        }
        None
    }
}

/// A scheduling strategy: one choice for each criterion.
#[derive(Clone, Copy, Debug, PartialEq, Eq, Structural)]
pub struct Strategy {
    pub ptq_navigation_criterion: PTQNavigationCriterion,
    pub task_sorting_criterion: TaskSortingCriterion,
    pub multi_core_criterion: MultiCoreCriterion,
}

/// The parameters name a variant of each criterion, under the keys
/// `navigation`, `sorting` and `multicore`.
pub open spec fn strategy_params_valid(params: &SchedulerParams) -> bool {
    &&& params.value("navigation"@) matches Some(v) && (v == "Whole"@ || v == "Front"@)
    &&& params.value("sorting"@) matches Some(v) && (v == "Khan"@ || v == "DFS"@)
    &&& params.value("multicore"@) matches Some(v) && (v == "SkipActiveNodes"@ || v
        == "UseAllCores"@)
}

/// The strategy that valid parameters name.
pub open spec fn strategy_of(params: &SchedulerParams) -> Strategy {
    Strategy {
        ptq_navigation_criterion: if params.value("navigation"@) == Some("Whole"@) {
            PTQNavigationCriterion::Whole
        } else {
            PTQNavigationCriterion::Front
        },
        task_sorting_criterion: if params.value("sorting"@) == Some("Khan"@) {
            TaskSortingCriterion::Khan
        } else {
            TaskSortingCriterion::DFS
        },
        multi_core_criterion: if params.value("multicore"@) == Some("SkipActiveNodes"@) {
            MultiCoreCriterion::SkipActiveNodes
        } else {
            MultiCoreCriterion::UseAllCores
        },
    }
}

impl Strategy {
    /// The strategy named by the parameters `navigation`, `sorting` and
    /// `multicore`.
    pub fn from_params(params: &SchedulerParams) -> (s: Self)
        requires
            strategy_params_valid(params),
        ensures
            s == strategy_of(params),
    {
        let navigation = params.get("navigation");
        let sorting = params.get("sorting");
        let multicore = params.get("multicore");
        proof {
            reveal_strlit("Whole");
            reveal_strlit("Front");
            reveal_strlit("Khan");
            reveal_strlit("DFS");
            reveal_strlit("SkipActiveNodes");
            reveal_strlit("UseAllCores");
        }
        let ptq_navigation_criterion = match navigation {
            Some(v) => match PTQNavigationCriterion::from_str(v.as_str()) {
                Ok(c) => c,
                Err(_) => PTQNavigationCriterion::Whole,
            },
            None => PTQNavigationCriterion::Whole,
        };
        let task_sorting_criterion = match sorting {
            Some(v) => match TaskSortingCriterion::from_str(v.as_str()) {
                Ok(c) => c,
                Err(_) => TaskSortingCriterion::Khan,
            },
            None => TaskSortingCriterion::Khan,
        };
        let multi_core_criterion = match multicore {
            Some(v) => match MultiCoreCriterion::from_str(v.as_str()) {
                Ok(c) => c,
                Err(_) => MultiCoreCriterion::SkipActiveNodes,
            },
            None => MultiCoreCriterion::SkipActiveNodes,
        };
        Strategy { ptq_navigation_criterion, task_sorting_criterion, multi_core_criterion }
    }
}

} // verus!
