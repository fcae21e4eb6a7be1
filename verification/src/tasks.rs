//! Lists of outputs, inputs and kernels, applied one after the other.
use crate::apply::{
    input_program, kernel_program, output_program, Effect, InputRun, KernelRun, OutputRun,
};
use crate::extension::{Extension, Outcome, Overlay};
use crate::program::{bind, lemma_bind, meets, Need, Program, Reply, Request, Run, Step};
use crate::types::{Error, Input, Output, TxKernel};
use vstd::prelude::*;

verus! {

/// One thing to apply.
pub ghost enum Item {
    Output(Output),
    Input(Input),
    Kernel(TxKernel),
}

/// One thing to apply.
#[derive(Clone, Copy)]
pub enum Task<'a> {
    Output(&'a Output),
    Input(&'a Input),
    Kernel(&'a TxKernel),
}

impl<'a> Task<'a> {
    /// The mathematical form of the task.
    pub open spec fn item(self) -> Item {
        match self {
            Task::Output(out) => Item::Output(*out),
            Task::Input(input) => Item::Input(*input),
            Task::Kernel(kernel) => Item::Kernel(*kernel),
        }
    }
}

/// The items that a list of tasks stands for.
pub open spec fn items_of(tasks: Seq<Task<'_>>) -> Seq<Item> {
    tasks.map_values(|task: Task| task.item())
}

/// Applies one item.
pub open spec fn item_program(o: Overlay, item: Item) -> Effect {
    match item {
        Item::Output(out) => output_program(o, out),
        Item::Input(input) => input_program(o, input),
        Item::Kernel(kernel) => kernel_program(o, kernel),
    }
}

/// Applies items in order, up to the first that fails.
pub open spec fn items_program(o: Overlay, items: Seq<Item>) -> Effect
    decreases items.len(), 0nat,
{
    if items.len() == 0 {
        Program::Ret((o, Ok(())))
    } else {
        bind(item_program(o, items[0]), after_item(items.drop_first()))
    }
}

/// What follows an item, given the items after it.
pub open spec fn after_item(items: Seq<Item>) -> spec_fn((Overlay, Result<(), Error>)) -> Effect
    decreases items.len(), 1nat,
{
    |done: (Overlay, Result<(), Error>)|
        match done.1 {
            Ok(_) => items_program(done.0, items),
            Err(_) => Program::Ret(done),
        }
}

enum TaskRun<'a> {
    Output(OutputRun<'a>),
    Input(InputRun<'a>),
    Kernel(KernelRun<'a>),
}

impl<'a> Run for TaskRun<'a> {
    type Out = Outcome<()>;

    type Model = (Overlay, Result<(), Error>);

    open spec fn model(out: Outcome<()>) -> (Overlay, Result<(), Error>) {
        out@
    }

    open spec fn sound(out: Outcome<()>) -> bool {
        out.extension.valid()
    }

    closed spec fn program(&self) -> Effect {
        match *self {
            TaskRun::Output(run) => run.program(),
            TaskRun::Input(run) => run.program(),
            TaskRun::Kernel(run) => run.program(),
        }
    }

    closed spec fn valid(&self) -> bool {
        match *self {
            TaskRun::Output(run) => run.valid(),
            TaskRun::Input(run) => run.valid(),
            TaskRun::Kernel(run) => run.valid(),
        }
    }

    proof fn lemma_waits(&self) {
        match *self {
            TaskRun::Output(run) => run.lemma_waits(),
            TaskRun::Input(run) => run.lemma_waits(),
            TaskRun::Kernel(run) => run.lemma_waits(),
        }
    }

    fn request(&self) -> (request: Request<'_>) {
        match self {
            TaskRun::Output(run) => run.request(),
            TaskRun::Input(run) => run.request(),
            TaskRun::Kernel(run) => run.request(),
        }
    }

    fn need(&self) -> (need: Need) {
        match self {
            TaskRun::Output(run) => run.need(),
            TaskRun::Input(run) => run.need(),
            TaskRun::Kernel(run) => run.need(),
        }
    }

    fn resume(self, reply: Reply) -> (step: Step<Self, Outcome<()>>) {
        match self {
            TaskRun::Output(run) => match run.resume(reply) {
                Step::Running(run) => Step::Running(TaskRun::Output(run)),
                Step::Done(out) => Step::Done(out),
            },
            TaskRun::Input(run) => match run.resume(reply) {
                Step::Running(run) => Step::Running(TaskRun::Input(run)),
                Step::Done(out) => Step::Done(out),
            },
            TaskRun::Kernel(run) => match run.resume(reply) {
                Step::Running(run) => Step::Running(TaskRun::Kernel(run)),
                Step::Done(out) => Step::Done(out),
            },
        }
    }
}

fn start_task<'a>(extension: Extension, task: Task<'a>) -> (step: Step<TaskRun<'a>, Outcome<()>>)
    requires
        extension.valid(),
    ensures
        meets(step, item_program(extension@, task.item())),
        step is Running,
{
    match task {
        Task::Output(out) => match extension.apply_output(out) {
            Step::Running(run) => Step::Running(TaskRun::Output(run)),
            Step::Done(out) => Step::Done(out),
        },
        Task::Input(input) => match extension.apply_input(input) {
            Step::Running(run) => Step::Running(TaskRun::Input(run)),
            Step::Done(out) => Step::Done(out),
        },
        Task::Kernel(kernel) => match extension.apply_kernel(kernel) {
            Step::Running(run) => Step::Running(TaskRun::Kernel(run)),
            Step::Done(out) => Step::Done(out),
        },
    }
}

/// A list of tasks under way.
pub struct TasksRun<'a> {
    tasks: Vec<Task<'a>>,
    next: usize,
    run: TaskRun<'a>,
}

impl<'a> TasksRun<'a> {
    spec fn rest(&self) -> Seq<Item> {
        items_of(self.tasks@.skip(self.next as int))
    }

    spec fn good(&self) -> bool {
        self.run.valid() && self.next <= self.tasks@.len()
    }

    spec fn here(&self) -> Effect {
        bind(self.run.program(), after_item(self.rest()))
    }

    spec fn fits(step: Step<Self, Outcome<()>>, program: Effect) -> bool {
        match step {
            Step::Running(run) => run.good() && run.here() == program && program.waits(),
            Step::Done(out) => out.extension.valid() && program == Program::Ret(out@),
        }
    }

    fn go_on(extension: Extension, tasks: Vec<Task<'a>>, next: usize) -> (step: Step<
        Self,
        Outcome<()>,
    >)
        requires
            extension.valid(),
            next <= tasks@.len(),
        ensures
            Self::fits(step, items_program(extension@, items_of(tasks@.skip(next as int)))),
    {
        if next == tasks.len() {
            let result = Ok(());
            return Step::Done(Outcome { extension, result });
        }
        let task = tasks[next];
        proof {
            let rest = items_of(tasks@.skip(next as int));
            assert(rest[0] == task.item());
            assert(rest.drop_first() =~= items_of(tasks@.skip(next + 1)));
        }
        match start_task(extension, task) {
            Step::Running(run) => Step::Running(TasksRun { tasks, next: next + 1, run }),
            Step::Done(out) => Step::Done(out),
        }
    }
}

impl<'a> Run for TasksRun<'a> {
    type Out = Outcome<()>;

    type Model = (Overlay, Result<(), Error>);

    open spec fn model(out: Outcome<()>) -> (Overlay, Result<(), Error>) {
        out@
    }

    open spec fn sound(out: Outcome<()>) -> bool {
        out.extension.valid()
    }

    closed spec fn program(&self) -> Effect {
        self.here()
    }

    closed spec fn valid(&self) -> bool {
        self.good()
    }

    proof fn lemma_waits(&self) {
        self.run.lemma_waits();
    }

    fn request(&self) -> (request: Request<'_>) {
        proof {
            self.run.lemma_waits();
        }
        self.run.request()
    }

    fn need(&self) -> (need: Need) {
        proof {
            self.run.lemma_waits();
        }
        self.run.need()
    }

    fn resume(self, reply: Reply) -> (step: Step<Self, Outcome<()>>) {
        proof {
            self.run.lemma_waits();
            lemma_bind(self.run.program(), after_item(self.rest()));
        }
        match self.run.resume(reply) {
            Step::Running(run) => Step::Running(
                TasksRun { tasks: self.tasks, next: self.next, run },
            ),
            Step::Done(out) => match out.result {
                Ok(_) => TasksRun::go_on(out.extension, self.tasks, self.next),
                Err(_) => Step::Done(out),
            },
        }
    }
}

/// Applies tasks in order, up to the first that fails.
pub(crate) fn run_tasks<'a>(extension: Extension, tasks: Vec<Task<'a>>) -> (step: Step<
    TasksRun<'a>,
    Outcome<()>,
>)
    requires
        extension.valid(),
    ensures
        meets(step, items_program(extension@, items_of(tasks@))),
{
    assert(tasks@.skip(0) =~= tasks@);
    TasksRun::go_on(extension, tasks, 0)
}

// ---- lists

/// The outputs of a list, as items.
pub open spec fn output_items(outputs: Seq<Output>) -> Seq<Item> {
    outputs.map_values(|out: Output| Item::Output(out))
}

/// The inputs of a list, as items.
pub open spec fn input_items(inputs: Seq<Input>) -> Seq<Item> {
    inputs.map_values(|input: Input| Item::Input(input))
}

/// The kernels of a list, as items.
pub open spec fn kernel_items(kernels: Seq<TxKernel>) -> Seq<Item> {
    kernels.map_values(|kernel: TxKernel| Item::Kernel(kernel))
}

/// The outputs that are coinbase outputs, or those that are not.
pub open spec fn outputs_that(outputs: Seq<Output>, coinbase: bool) -> Seq<Output> {
    outputs.filter(|out: Output| out.coinbase == coinbase)
}

pub(crate) fn push_outputs<'a>(tasks: &mut Vec<Task<'a>>, outputs: &'a Vec<Output>)
    ensures
        items_of(final(tasks)@) == items_of(old(tasks)@) + output_items(outputs@),
{
    let ghost before = items_of(tasks@);
    let mut i: usize = 0;
    assert(before + output_items(outputs@.take(0)) =~= before);
    while i < outputs.len()
        invariant
            i <= outputs@.len(),
            items_of(tasks@) == before + output_items(outputs@.take(i as int)),
        decreases outputs@.len() - i,
    {
        let ghost now = tasks@;
        tasks.push(Task::Output(&outputs[i]));
        i = i + 1;
        proof {
            let item = Item::Output(outputs@[i - 1]);
            assert(items_of(tasks@) =~= items_of(now).push(item));
            assert(output_items(outputs@.take(i as int)) =~= output_items(outputs@.take(i - 1)).push(item));
            assert(items_of(tasks@) =~= before + output_items(outputs@.take(i as int)));
        }
    }
    assert(outputs@.take(i as int) =~= outputs@);
}

pub(crate) fn push_outputs_that<'a>(
    tasks: &mut Vec<Task<'a>>,
    outputs: &'a Vec<Output>,
    coinbase: bool,
)
    ensures
        items_of(final(tasks)@) == items_of(old(tasks)@) + output_items(
            outputs_that(outputs@, coinbase),
        ),
{
    let ghost before = items_of(tasks@);
    let mut i: usize = 0;
    proof {
        reveal(Seq::filter);
        assert(before + output_items(outputs_that(outputs@.take(0), coinbase)) =~= before);
    }
    while i < outputs.len()
        invariant
            i <= outputs@.len(),
            items_of(tasks@) == before + output_items(
                outputs_that(outputs@.take(i as int), coinbase),
            ),
        decreases outputs@.len() - i,
    {
        proof {
            reveal(Seq::filter);
            let next = outputs@.take(i + 1);
            assert(next.drop_last() =~= outputs@.take(i as int));
            assert(next.last() == outputs@[i as int]);
        }
        let ghost now = tasks@;
        if outputs[i].coinbase == coinbase {
            tasks.push(Task::Output(&outputs[i]));
            proof {
                let item = Item::Output(outputs@[i as int]);
                assert(items_of(tasks@) =~= items_of(now).push(item));
                assert(output_items(outputs_that(outputs@.take(i + 1), coinbase)) =~= output_items(
                    outputs_that(outputs@.take(i as int), coinbase),
                ).push(item));
            }
        }
        i = i + 1;
        assert(items_of(tasks@) =~= before + output_items(
            outputs_that(outputs@.take(i as int), coinbase),
        ));
    }
    assert(outputs@.take(i as int) =~= outputs@);
}

pub(crate) fn push_inputs<'a>(tasks: &mut Vec<Task<'a>>, inputs: &'a Vec<Input>)
    ensures
        items_of(final(tasks)@) == items_of(old(tasks)@) + input_items(inputs@),
{
    let ghost before = items_of(tasks@);
    let mut i: usize = 0;
    assert(before + input_items(inputs@.take(0)) =~= before);
    while i < inputs.len()
        invariant
            i <= inputs@.len(),
            items_of(tasks@) == before + input_items(inputs@.take(i as int)),
        decreases inputs@.len() - i,
    {
        let ghost now = tasks@;
        tasks.push(Task::Input(&inputs[i]));
        i = i + 1;
        proof {
            let item = Item::Input(inputs@[i - 1]);
            assert(items_of(tasks@) =~= items_of(now).push(item));
            assert(input_items(inputs@.take(i as int)) =~= input_items(inputs@.take(i - 1)).push(item));
            assert(items_of(tasks@) =~= before + input_items(inputs@.take(i as int)));
        }
    }
    assert(inputs@.take(i as int) =~= inputs@);
}

pub(crate) fn push_kernels<'a>(tasks: &mut Vec<Task<'a>>, kernels: &'a Vec<TxKernel>)
    ensures
        items_of(final(tasks)@) == items_of(old(tasks)@) + kernel_items(kernels@),
{
    let ghost before = items_of(tasks@);
    let mut i: usize = 0;
    assert(before + kernel_items(kernels@.take(0)) =~= before);
    while i < kernels.len()
        invariant
            i <= kernels@.len(),
            items_of(tasks@) == before + kernel_items(kernels@.take(i as int)),
        decreases kernels@.len() - i,
    {
        let ghost now = tasks@;
        tasks.push(Task::Kernel(&kernels[i]));
        i = i + 1;
        proof {
            let item = Item::Kernel(kernels@[i - 1]);
            assert(items_of(tasks@) =~= items_of(now).push(item));
            assert(kernel_items(kernels@.take(i as int)) =~= kernel_items(kernels@.take(i - 1)).push(item));
            assert(items_of(tasks@) =~= before + kernel_items(kernels@.take(i as int)));
        }
    }
    assert(kernels@.take(i as int) =~= kernels@);
}

} // verus!
