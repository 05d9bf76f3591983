use std::cell::Cell;
use std::collections::HashMap;
use std::rc::Rc;

use netsim::runtime::Runtime;
use netsim::runtime::RuntimePoller;
use netsim::runtime::TaskId;

struct Script {
    bodies: HashMap<TaskId, Box<dyn FnMut(&mut Runtime, TaskId) -> bool>>,
}

impl Script {
    fn new() -> Script {
        Script { bodies: HashMap::new() }
    }
}

impl RuntimePoller for Script {
    fn poll_task(&mut self, rt: &mut Runtime, task: TaskId) -> bool {
        match self.bodies.get_mut(&task) {
            Some(f) => f(rt, task),
            None => true,
        }
    }
}

#[test]
fn tests_basic() {
    let mut runtime = Runtime::new();
    let mut script = Script::new();
    let produced: Rc<Cell<Option<u32>>> = Rc::new(Cell::new(None));
    let checked = Rc::new(Cell::new(false));

    let t0 = runtime.submit();
    let t1 = runtime.submit();
    {
        let produced = produced.clone();
        script.bodies.insert(t0, Box::new(move |_rt, _id| {
            produced.set(Some(5));
            true
        }));
    }
    {
        let produced = produced.clone();
        let checked = checked.clone();
        script.bodies.insert(t1, Box::new(move |_rt, _id| {
            match produced.get() {
                Some(x) => {
                    assert_eq!(x, 5);
                    checked.set(true);
                    true
                },
                None => false,
            }
        }));
    }
    assert_eq!(runtime.next_step(&mut script), Some((t0, true)));
    assert_eq!(runtime.next_step(&mut script), Some((t1, true)));
    assert!(runtime.next_step(&mut script).is_none());
    assert!(checked.get());
}

#[test]
fn steps_correct() {
    let mut runtime = Runtime::new();
    let mut script = Script::new();
    let produced: Rc<Cell<Option<u32>>> = Rc::new(Cell::new(None));

    let t0 = runtime.submit();
    let t1 = runtime.submit();
    {
        let produced = produced.clone();
        script.bodies.insert(t0, Box::new(move |_rt, _id| {
            produced.set(Some(5));
            true
        }));
    }
    {
        let produced = produced.clone();
        script.bodies.insert(t1, Box::new(move |_rt, _id| {
            match produced.get() {
                Some(x) => {
                    assert_eq!(x, 5);
                    true
                },
                None => false,
            }
        }));
    }
    let steps = runtime.make_steps(None, &mut script);
    assert_eq!(steps, 2);

    runtime.submit();
    runtime.submit();
    runtime.submit();
    let steps = runtime.make_steps(Some(2), &mut script);
    assert_eq!(steps, 2);
    assert!(runtime.next_step(&mut script).is_some());
    assert!(runtime.next_step(&mut script).is_none());
}

#[test]
fn tasks_reordering() {
    let mut runtime = Runtime::new();
    let mut script = Script::new();
    let sent = Rc::new(Cell::new(false));
    let t0_done = Rc::new(Cell::new(false));
    let result = Rc::new(Cell::new(0u32));

    let t0 = runtime.submit();
    let t1 = runtime.submit();
    {
        let sent = sent.clone();
        let t0_done = t0_done.clone();
        script.bodies.insert(t0, Box::new(move |rt, _id| {
            if sent.get() {
                t0_done.set(true);
                rt.push_task(1);
                true
            } else {
                false
            }
        }));
    }
    {
        let sent = sent.clone();
        let t0_done = t0_done.clone();
        let result = result.clone();
        script.bodies.insert(t1, Box::new(move |rt, _id| {
            if !sent.get() {
                sent.set(true);
                rt.push_task(0);
            }
            if t0_done.get() {
                result.set(1);
                true
            } else {
                false
            }
        }));
    }
    let steps = runtime.make_steps(None, &mut script);
    assert_eq!(steps, 4);
    assert_eq!(result.get(), 1);
}

#[test]
fn handle_lifetime() {
    let mut runtime = Runtime::new();
    let mut script = Script::new();
    let produced: Rc<Cell<Option<u32>>> = Rc::new(Cell::new(None));

    let t0 = runtime.submit();
    {
        let produced = produced.clone();
        script.bodies.insert(t0, Box::new(move |_rt, _id| {
            produced.set(Some(5));
            true
        }));
    }
    runtime.make_steps(None, &mut script);

    let t1 = runtime.submit();
    let checked = Rc::new(Cell::new(false));
    {
        let produced = produced.clone();
        let checked = checked.clone();
        script.bodies.insert(t1, Box::new(move |_rt, _id| {
            assert_eq!(produced.get(), Some(5));
            checked.set(true);
            true
        }));
    }
    runtime.make_steps(None, &mut script);
    assert!(checked.get());
}
