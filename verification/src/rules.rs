use vstd::prelude::*;

verus! {

/// A rule in the build description: the tasks to run, the resources they
/// read and the resources they write. A build description is a list of
/// rules.
pub struct Rule<R, T> {
    /// Inputs to the task.
    pub inputs: Vec<R>,
    /// Outputs from the task.
    pub outputs: Vec<R>,
    /// The sequence of tasks to execute.
    pub tasks: T,
}

impl<R: View, T: View> View for Rule<R, T> {
    /// The tasks, the inputs and the outputs, by their views.
    type V = (T::V, Seq<R::V>, Seq<R::V>);

    open spec fn view(&self) -> (T::V, Seq<R::V>, Seq<R::V>) {
        (self.tasks@, self.inputs@.map_values(|r: R| r@), self.outputs@.map_values(|r: R| r@))
    }
}

/// A group of rules, used to cache tasks together or to send them to
/// another machine.
pub struct Partition<R, T> {
    /// The inputs of all tasks in the partition.
    inputs: Vec<R>,
    /// The rules in this partition.
    rules: Vec<Rule<R, T>>,
}

impl<R, T> Partition<R, T> {
    /// A partition of the given rules with the given inputs.
    pub fn new(inputs: Vec<R>, rules: Vec<Rule<R, T>>) -> (r: Self)
        ensures
            r.spec_inputs() == inputs@,
            r.spec_rules() == rules@,
    {
        Partition { inputs, rules }
    }

    pub closed spec fn spec_inputs(&self) -> Seq<R> {
        self.inputs@
    }

    pub closed spec fn spec_rules(&self) -> Seq<Rule<R, T>> {
        self.rules@
    }
}

/// What a task knows it reads and writes beyond what its rule lists.
pub trait KnownResources<R> {
    /// The resources that the task is known to read.
    spec fn known_inputs_spec(&self) -> Seq<R>;

    /// The resources that the task is known to write.
    spec fn known_outputs_spec(&self) -> Seq<R>;

    /// Adds the resources that the task is known to read.
    fn known_inputs(&self, set: &mut Vec<R>)
        ensures
            final(set)@ == old(set)@ + self.known_inputs_spec(),
    ;

    /// Adds the resources that the task is known to write.
    fn known_outputs(&self, set: &mut Vec<R>)
        ensures
            final(set)@ == old(set)@ + self.known_outputs_spec(),
    ;
}

/// A task given as the text of its command knows of no resource beyond
/// those its rule lists.
impl<R> KnownResources<R> for String {
    open spec fn known_inputs_spec(&self) -> Seq<R> {
        Seq::empty()
    }

    open spec fn known_outputs_spec(&self) -> Seq<R> {
        Seq::empty()
    }

    fn known_inputs(&self, set: &mut Vec<R>) {
        assert(set@ =~= set@ + Seq::<R>::empty());
    }

    fn known_outputs(&self, set: &mut Vec<R>) {
        assert(set@ =~= set@ + Seq::<R>::empty());
    }
}

/// The rules of a build description.
pub struct Rules<R, T>(pub Vec<Rule<R, T>>);

impl<R, T: KnownResources<R>> Rules<R, T> {
    /// The rules, each completed with the inputs and outputs that its
    /// tasks are known to have, so that the build description need not list
    /// them.
    pub fn new(rules: Vec<Rule<R, T>>) -> (r: Self)
        ensures
            r.0@.len() == rules@.len(),
            forall|i: int| 0 <= i < rules@.len() ==> {
                &&& (#[trigger] r.0@[i]).tasks == rules@[i].tasks
                &&& r.0@[i].inputs@ == rules@[i].inputs@ + rules@[i].tasks.known_inputs_spec()
                &&& r.0@[i].outputs@ == rules@[i].outputs@ + rules@[i].tasks.known_outputs_spec()
            },
    {
        let mut rules = rules;
        let mut out: Vec<Rule<R, T>> = Vec::new();
        let ghost all = rules@;
        let n = rules.len();
        let mut i: usize = 0;
        while i < n
            invariant
                i <= n,
                n == all.len(),
                rules@ == all.subrange(i as int, n as int),
                out@.len() == i,
                forall|j: int| 0 <= j < i ==> {
                    &&& (#[trigger] out@[j]).tasks == all[j].tasks
                    &&& out@[j].inputs@ == all[j].inputs@ + all[j].tasks.known_inputs_spec()
                    &&& out@[j].outputs@ == all[j].outputs@ + all[j].tasks.known_outputs_spec()
                },
            decreases n - i,
        {
            let mut r = rules.remove(0);
            proof {
                assert(rules@ =~= all.subrange(i + 1, n as int));
                assert(r == all[i as int]);
            }
            r.tasks.known_inputs(&mut r.inputs);
            r.tasks.known_outputs(&mut r.outputs);
            out.push(r);
            i = i + 1;
        }
        Rules(out)
    }
}

impl<R, T> Rules<R, T> {
    /// The rules, in order.
    pub fn iter(&self) -> (r: &[Rule<R, T>])
        ensures
            r@ == self.0@,
    {
        self.0.as_slice()
    }

    /// The rules, in order, to change in place.
    pub fn iter_mut(&mut self) -> (r: &mut Vec<Rule<R, T>>)
        ensures
            *r == old(self).0,
            final(self).0 == *final(r),
    {
        &mut self.0
    }

    /// The number of rules.
    pub fn len(&self) -> (r: usize)
        ensures
            r == self.0@.len(),
    {
        self.0.len()
    }
}

} // verus!
