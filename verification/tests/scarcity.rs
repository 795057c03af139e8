// What a consumer holds is recorded in the resource's ledger directly here;
// checking capacity before recording computes with the amounts and is not
// part of this crate.
use attention::ledger::Ledger;
use attention::scarcity::{ResourceArena, ScarceResource};

fn held(r: &ScarceResource<f64>) -> f64 {
    r.consumers.entries().iter().map(|(_, a)| *a).sum()
}

#[test]
fn test_scarce_new() {
    let r = ScarceResource::new("cpu", 100.0);
    assert_eq!(r.name, "cpu");
    assert_eq!(r.capacity, 100.0);
    assert_eq!(r.num_consumers(), 0);
    assert_eq!(r.capacity - held(&r), 100.0);
}

#[test]
fn test_scarce_release() {
    let mut r = ScarceResource::new("cpu", 100.0);
    r.consumers.insert("a", 50.0);
    assert_eq!(r.release("a"), Some(50.0));
    assert_eq!(r.capacity - held(&r), 100.0);
}

#[test]
fn test_scarce_multiple_consumers() {
    let mut r = ScarceResource::new("mem", 200.0);
    r.consumers.insert("a", 50.0);
    r.consumers.insert("b", 70.0);
    assert_eq!(r.num_consumers(), 2);
    assert_eq!(r.capacity - held(&r), 80.0);
}

#[test]
fn test_arena_new() {
    let a: ResourceArena<f64> = ResourceArena::new();
    assert_eq!(a.num_resources(), 0);
}

#[test]
fn test_arena_release_all() {
    let mut a = ResourceArena::new();
    a.add_resource(ScarceResource::new("cpu", 100.0));
    let mut cpu = a.take_resource("cpu").unwrap();
    cpu.consumers.insert("agent1", 50.0);
    a.add_resource(cpu);
    a.release_all("agent1");
    let cpu = a.get_resource("cpu").unwrap();
    assert_eq!(cpu.capacity - held(cpu), 100.0);
}

#[test]
fn test_arena_default() {
    let a: ResourceArena<f64> = ResourceArena::default();
    assert_eq!(a.num_resources(), 0);
}

#[test]
fn release_unknown_consumer_gives_none() {
    let mut r = ScarceResource::new("x", 0u64);
    r.consumers.insert("a", 3);
    assert_eq!(r.release("b"), None);
    assert_eq!(r.num_consumers(), 1);
}

#[test]
fn release_all_keeps_other_consumers() {
    let mut a = ResourceArena::new();
    let mut cpu = ScarceResource::new("cpu", 10u64);
    cpu.consumers.insert("x", 2);
    cpu.consumers.insert("y", 3);
    let mut mem = ScarceResource::new("mem", 20u64);
    mem.consumers.insert("y", 4);
    a.add_resource(cpu);
    a.add_resource(mem);
    a.release_all("y");
    let cpu = a.get_resource("cpu").unwrap();
    assert_eq!(cpu.consumers.get("x"), Some(&2));
    assert_eq!(cpu.consumers.get("y"), None);
    assert_eq!(cpu.capacity, 10);
    let mem = a.get_resource("mem").unwrap();
    assert_eq!(mem.num_consumers(), 0);
    assert_eq!(a.num_resources(), 2);
}

#[test]
fn adding_a_resource_again_replaces_it() {
    let mut a = ResourceArena::new();
    a.add_resource(ScarceResource::new("cpu", 1u64));
    a.add_resource(ScarceResource::new("gpu", 2u64));
    a.add_resource(ScarceResource::new("cpu", 5u64));
    assert_eq!(a.num_resources(), 2);
    assert_eq!(a.get_resource("cpu").unwrap().capacity, 5);
    assert!(a.get_resource("tpu").is_none());
}

#[test]
fn take_resource_removes_it() {
    let mut a = ResourceArena::new();
    a.add_resource(ScarceResource::new("cpu", 1u64));
    assert_eq!(a.take_resource("cpu").unwrap().capacity, 1);
    assert!(a.take_resource("cpu").is_none());
    assert_eq!(a.num_resources(), 0);
}

#[test]
fn ledger_read_gives_back_last_write() {
    let mut l = Ledger::new();
    l.insert("t", 50u64);
    l.insert("u", 7);
    l.insert("t", 30);
    assert_eq!(l.get("t"), Some(&30));
    assert_eq!(l.len(), 2);
    assert_eq!(l.remove("t"), Some(30));
    assert_eq!(l.remove("t"), None);
    assert_eq!(l.len(), 1);
    let names: Vec<&str> = l.entries().iter().map(|(n, _)| n.as_str()).collect();
    assert_eq!(names, vec!["u"]);
}
