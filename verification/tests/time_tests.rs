use std::cell::Cell;
use std::collections::HashMap;
use std::rc::Rc;

use netsim::runtime::TaskId;
use netsim::sim::InertPoller;
use netsim::sim::NodeBuilder;
use netsim::sim::NodeHandle;
use netsim::sim::Sim;
use netsim::sim::TaskPoller;
use netsim::Timestamp;

struct Tasks {
    bodies: HashMap<(usize, TaskId), Box<dyn FnMut(&mut Sim, NodeHandle, TaskId) -> bool>>,
}

impl Tasks {
    fn new() -> Tasks {
        Tasks { bodies: HashMap::new() }
    }

    fn add(
        &mut self,
        node: NodeHandle,
        task: TaskId,
        body: Box<dyn FnMut(&mut Sim, NodeHandle, TaskId) -> bool>,
    ) {
        self.bodies.insert((node.node, task), body);
    }
}

impl TaskPoller for Tasks {
    fn poll_task(&mut self, sim: &mut Sim, node: NodeHandle, task: TaskId) -> bool {
        match self.bodies.get_mut(&(node.node, task)) {
            Some(f) => f(sim, node, task),
            None => true,
        }
    }
}

fn make_node() -> (Sim, NodeHandle) {
    let mut sim = Sim::new(123);
    let node = NodeBuilder::with_ip("1.1.1.1").unwrap().build(&mut sim).unwrap();
    (sim, node)
}

/// A one-shot sleep body: adds a timer on its first poll, completes
/// once the timer has elapsed, and runs `and_then` at completion.
fn sleeper(
    duration: Timestamp,
    and_then: Box<dyn FnMut(&mut Sim, NodeHandle)>,
) -> Box<dyn FnMut(&mut Sim, NodeHandle, TaskId) -> bool> {
    let timer: Rc<Cell<Option<usize>>> = Rc::new(Cell::new(None));
    let mut and_then = and_then;
    Box::new(move |sim, node, task| {
        let id = match timer.get() {
            None => {
                let id = node.add_timer(sim, duration);
                timer.set(Some(id));
                id
            },
            Some(id) => id,
        };
        node.register_timer_waiter(sim, id, task);
        if node.timer_elapsed(&*sim, id) {
            and_then(sim, node);
            true
        } else {
            false
        }
    })
}

#[test]
fn time_works() {
    let (mut sim, node) = make_node();
    let mut inert = InertPoller {};
    assert_eq!(node.time(&sim), Timestamp::from_secs(0));
    node.step_duration(&mut sim, Timestamp::from_secs(2), &mut inert);
    assert_eq!(node.time(&sim), Timestamp::from_secs(2));

    let mut tasks = Tasks::new();
    let t = node.spawn(&mut sim);
    tasks.add(node, t, Box::new(|sim, node, _task| {
        assert_eq!(node.time(sim), Timestamp::from_secs(2));
        true
    }));
    assert_eq!(node.make_steps(&mut sim, None, &mut tasks), 1);
}

#[test]
fn sleep_works() {
    let (mut sim, node) = make_node();
    let mut tasks = Tasks::new();
    let flag = Rc::new(Cell::new(false));

    let t = node.spawn(&mut sim);
    {
        let flag = flag.clone();
        tasks.add(node, t, sleeper(Timestamp::from_secs(1), Box::new(move |_sim, _node| {
            flag.set(true);
        })));
    }
    let steps = node.make_steps(&mut sim, None, &mut tasks);
    assert!(steps > 1);
    assert_eq!(node.time(&sim), Timestamp::from_secs(1));
    assert!(flag.get());

    flag.set(false);
    let t = node.spawn(&mut sim);
    {
        let flag = flag.clone();
        tasks.add(node, t, sleeper(Timestamp::from_secs(1), Box::new(move |_sim, _node| {
            flag.set(true);
        })));
    }
    let steps = node.step_duration(&mut sim, Timestamp::from_secs(1), &mut tasks);
    assert!(steps > 0);
    assert_eq!(node.time(&sim), Timestamp::from_secs(2));
    assert!(flag.get());

    let cnt = Rc::new(Cell::new(0usize));
    let t = node.spawn(&mut sim);
    {
        let cnt = cnt.clone();
        let cnt_sub = cnt.clone();
        let mut inner_sleep: Option<Box<dyn FnMut(&mut Sim, NodeHandle, TaskId) -> bool>> = Some(
            sleeper(Timestamp::from_secs(2), Box::new(move |_sim, _node| {
                cnt.set(cnt.get() + 1);
            })),
        );
        let mut sleep_self: Option<Box<dyn FnMut(&mut Sim, NodeHandle, TaskId) -> bool>> = None;
        tasks.add(node, t, Box::new(move |sim, node, task| {
            if sleep_self.is_none() {
                // first poll: spawn the subtask, then start the own
                // two-second sleep
                let _sub = node.spawn(sim);
                sleep_self = inner_sleep.take();
            }
            match &mut sleep_self {
                Some(f) => f(sim, node, task),
                None => true,
            }
        }));
        let cnt = cnt_sub;
        tasks.add(node, t + 1, sleeper(Timestamp::from_secs(1), Box::new(move |_sim, _node| {
            cnt.set(cnt.get() + 1);
        })));
    }
    let steps = node.step_duration(&mut sim, Timestamp::from_millis(1500), &mut tasks);
    assert!(steps > 0);
    assert_eq!(node.time(&sim), Timestamp::from_millis(3500));
    assert_eq!(cnt.get(), 1);

    let steps = node.step_duration(&mut sim, Timestamp::from_millis(500), &mut tasks);
    assert!(steps > 0);
    assert_eq!(node.time(&sim), Timestamp::from_secs(4));
    assert_eq!(cnt.get(), 2);
}

#[test]
fn now_works() {
    let (mut sim, node) = make_node();
    let mut tasks = Tasks::new();
    let done = Rc::new(Cell::new(false));

    let t = node.spawn(&mut sim);
    {
        let done = done.clone();
        let done_sub = done.clone();
        let mut own_sleep: Option<Box<dyn FnMut(&mut Sim, NodeHandle, TaskId) -> bool>> = Some(
            sleeper(Timestamp::from_secs(2), Box::new(move |sim, node| {
                // after a two-second sleep the clock reads two
                assert_eq!(node.time(sim), Timestamp::from_secs(2));
                let _sub = node.spawn(sim);
            })),
        );
        let mut running: Option<Box<dyn FnMut(&mut Sim, NodeHandle, TaskId) -> bool>> = None;
        tasks.add(node, t, Box::new(move |sim, node, task| {
            if running.is_none() {
                assert_eq!(node.time(sim), Timestamp::from_secs(0));
                running = own_sleep.take();
            }
            match &mut running {
                Some(f) => f(sim, node, task),
                None => true,
            }
        }));
        let done = done_sub;
        tasks.add(node, t + 1, sleeper(Timestamp::from_secs(1), Box::new(move |sim, node| {
            // the subtask wakes one second later still
            assert_eq!(node.time(sim), Timestamp::from_secs(3));
            done.set(true);
        })));
    }
    node.make_steps(&mut sim, None, &mut tasks);
    assert!(done.get());
}

#[test]
fn sleep_zero() {
    let (mut sim, node) = make_node();
    let mut tasks = Tasks::new();
    let flag = Rc::new(Cell::new(false));
    let t = node.spawn(&mut sim);
    {
        let flag = flag.clone();
        tasks.add(node, t, sleeper(Timestamp::from_secs(0), Box::new(move |sim, node| {
            // a zero sleep completes with the clock unmoved
            assert_eq!(node.time(sim), Timestamp::from_secs(0));
            flag.set(true);
        })));
    }
    node.step_duration(&mut sim, Timestamp::from_secs(0), &mut tasks);
    assert_eq!(flag.get(), true);
}
