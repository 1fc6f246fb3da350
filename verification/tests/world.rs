use reactex_core::cause::Cause;
use reactex_core::change_buffer::Change;
use reactex_core::change_buffer::ChangeBuffer;
use reactex_core::change_buffer::ChangeError;
use reactex_core::component::ComponentType;
use reactex_core::entity_storage::TemporaryEntityKeyStorage;
use reactex_core::entity_storage::ValidateUncommitted;
use reactex_core::errors::ComponentError;
use reactex_core::errors::ComponentNotFoundError;
use reactex_core::errors::EntityError;
use reactex_core::errors::WorldError;
use reactex_core::filter::FilterDesc;
use reactex_core::keys::ComponentKey;
use reactex_core::keys::EntityKey;
use reactex_core::world::ExecutionContext;
use reactex_core::world::FilterEvents;
use reactex_core::world::SignalDelivery;
use reactex_core::world::StepOutcome;
use reactex_core::world::World;

const POSITION: ComponentType = ComponentType { index: 1 };
const VELOCITY: ComponentType = ComponentType { index: 2 };

const POSITION_ONLY: &[ComponentType] = &[POSITION];
const POSITION_AND_VELOCITY: &[ComponentType] = &[POSITION, VELOCITY];
const EVERYTHING: &[ComponentType] = &[];

type W = World<i32, &'static str, fn(i32) -> i32>;
type Buffer = ChangeBuffer<i32, &'static str, fn(i32) -> i32>;

#[derive(Default)]
struct Run {
    signals: Vec<SignalDelivery<&'static str>>,
    appear: Vec<FilterEvents>,
    disappear: Vec<FilterEvents>,
}

fn run_pipeline(world: &mut W) -> Run {
    let mut run = Run::default();
    let mut ctx = ExecutionContext { cursor: 0 };
    while ctx.cursor < world.pipeline_len() {
        assert!(world.is_step_ready(&ctx), "attempt to mark committed as committed");
        match world.execute_step(&mut ctx) {
            StepOutcome::Done => {}
            StepOutcome::Signal(Some(delivery)) => run.signals.push(delivery),
            StepOutcome::Signal(None) => {}
            StepOutcome::Appear(events) => run.appear.extend(events),
            StepOutcome::Disappear(events) => run.disappear.extend(events),
        }
    }
    world.finish_transaction();
    run
}

fn double(v: i32) -> i32 {
    v * 2
}

fn committed_entity(world: &mut W) -> EntityKey {
    let e = world.create_entity();
    run_pipeline(world);
    e
}

#[test]
fn created_entity_is_not_committed_before_the_pipeline_runs() {
    let mut world: W = World::new();
    let e = world.create_entity();
    assert!(world.entity_exists(e));
    assert_eq!(world.has_component(e, POSITION), Err(WorldError::Entity(EntityError::NotCommitted)));
    run_pipeline(&mut world);
    assert_eq!(world.has_component(e, POSITION), Ok(false));
    assert_eq!(world.tx_count(), 1);
}

#[test]
fn added_component_is_read_back_after_the_pipeline() {
    let mut world: W = World::new();
    let e = committed_entity(&mut world);
    assert_eq!(world.add_component(e, POSITION, 42), Ok(()));
    assert_eq!(world.get_component(e, POSITION), Ok(None));
    run_pipeline(&mut world);
    assert_eq!(world.get_component(e, POSITION), Ok(Some(&42)));
    assert_eq!(world.has_component(e, POSITION), Ok(true));
    assert_eq!(world.has_component(e, VELOCITY), Ok(false));
}

#[test]
fn component_added_to_a_new_entity_is_read_back() {
    let mut world: W = World::new();
    let e = world.create_entity();
    assert_eq!(world.add_component(e, VELOCITY, 7), Ok(()));
    run_pipeline(&mut world);
    assert_eq!(world.get_component(e, VELOCITY), Ok(Some(&7)));
}

#[test]
fn first_added_value_wins() {
    let mut world: W = World::new();
    let e = committed_entity(&mut world);
    world.add_component(e, POSITION, 1).unwrap();
    world.add_component(e, POSITION, 2).unwrap();
    run_pipeline(&mut world);
    assert_eq!(world.get_component(e, POSITION), Ok(Some(&1)));
}

#[test]
fn removed_component_is_gone_after_the_pipeline() {
    let mut world: W = World::new();
    let e = committed_entity(&mut world);
    world.add_component(e, POSITION, 5).unwrap();
    run_pipeline(&mut world);
    assert_eq!(world.remove_component(e, POSITION), Ok(()));
    assert_eq!(world.has_component(e, POSITION), Ok(true));
    run_pipeline(&mut world);
    assert_eq!(world.has_component(e, POSITION), Ok(false));
    assert_eq!(world.get_component(e, POSITION), Ok(None));
}

#[test]
fn removing_a_queued_component_drops_it() {
    let mut world: W = World::new();
    let e = committed_entity(&mut world);
    world.add_component(e, POSITION, 5).unwrap();
    assert_eq!(world.remove_component(e, POSITION), Ok(()));
    run_pipeline(&mut world);
    assert_eq!(world.has_component(e, POSITION), Ok(false));
}

#[test]
fn removing_a_missing_component_is_refused() {
    let mut world: W = World::new();
    let e = committed_entity(&mut world);
    assert_eq!(
        world.remove_component(e, POSITION),
        Err(WorldError::Component(ComponentError::NotFound(ComponentNotFoundError::Mapping)))
    );
}

#[test]
fn modifications_are_applied_in_order_when_the_pipeline_runs() {
    let mut world: W = World::new();
    let e = committed_entity(&mut world);
    world.add_component(e, POSITION, 10).unwrap();
    run_pipeline(&mut world);
    assert_eq!(world.modify_component(e, POSITION, |v| v * 3), Ok(()));
    assert_eq!(world.modify_component(e, POSITION, |v| v + 1), Ok(()));
    assert_eq!(world.get_component(e, POSITION), Ok(Some(&10)));
    assert_eq!(world.modify_component(e, VELOCITY, |v| v + 1), Ok(()));
    run_pipeline(&mut world);
    assert_eq!(world.get_component(e, POSITION), Ok(Some(&31)));
    assert_eq!(world.get_component(e, VELOCITY), Ok(None));
    let uncommitted = world.create_entity();
    assert_eq!(
        world.modify_component(uncommitted, POSITION, |v| v),
        Err(WorldError::Entity(EntityError::NotCommitted))
    );
}

#[test]
fn destroyed_entity_no_longer_exists_and_its_slot_is_reused() {
    let mut world: W = World::new();
    let e = committed_entity(&mut world);
    world.add_component(e, POSITION, 1).unwrap();
    run_pipeline(&mut world);
    assert_eq!(world.destroy_entity(e), Ok(()));
    assert!(world.entity_exists(e));
    run_pipeline(&mut world);
    assert!(!world.entity_exists(e));
    assert_eq!(world.has_component(e, POSITION), Err(WorldError::Entity(EntityError::NotExists)));
    let again = committed_entity(&mut world);
    assert_eq!(again.inner.index, e.inner.index);
    assert_eq!(again.inner.generation.0, e.inner.generation.0 + 1);
    assert_eq!(world.has_component(e, POSITION), Err(WorldError::Entity(EntityError::IsStale)));
    assert_eq!(world.has_component(again, POSITION), Ok(false));
}

#[test]
fn uncommitted_entity_is_dropped_at_once() {
    let mut world: W = World::new();
    let e = world.create_entity();
    world.add_component(e, POSITION, 3).unwrap();
    assert_eq!(world.destroy_entity(e), Ok(()));
    assert!(!world.entity_exists(e));
    assert_eq!(world.destroy_entity(e), Err(WorldError::Entity(EntityError::NotExists)));
    run_pipeline(&mut world);
    assert!(!world.entity_exists(e));
}

#[test]
fn query_lists_matching_entities() {
    let mut world: W = World::new();
    let a = committed_entity(&mut world);
    let b = committed_entity(&mut world);
    world.add_component(a, POSITION, 1).unwrap();
    world.add_component(b, POSITION, 2).unwrap();
    world.add_component(b, VELOCITY, 3).unwrap();
    run_pipeline(&mut world);
    world.register_filter(FilterDesc::new(POSITION_AND_VELOCITY));
    assert_eq!(world.query(FilterDesc::new(POSITION_AND_VELOCITY)), vec![b]);
    world.register_filter(FilterDesc::new(POSITION_ONLY));
    let mut both = world.query(FilterDesc::new(POSITION_ONLY));
    both.sort_by_key(|k| k.inner.index.index);
    assert_eq!(both, vec![a, b]);
    world.remove_component(b, VELOCITY).unwrap();
    run_pipeline(&mut world);
    assert_eq!(world.query(FilterDesc::new(POSITION_AND_VELOCITY)), vec![]);
}

#[test]
fn appear_and_disappear_events_reach_their_handlers() {
    let mut world: W = World::new();
    world.add_appear_handler(7, FilterDesc::new(POSITION_ONLY));
    world.add_disappear_handler(8, FilterDesc::new(POSITION_ONLY));
    let e = committed_entity(&mut world);
    world.add_component(e, POSITION, 1).unwrap();
    let run = run_pipeline(&mut world);
    assert_eq!(run.appear.len(), 1);
    assert_eq!(run.appear[0].handlers, vec![7]);
    assert_eq!(run.appear[0].events.len(), 1);
    assert_eq!(run.appear[0].events[0].0, e.inner);
    world.remove_component(e, POSITION).unwrap();
    let run = run_pipeline(&mut world);
    assert_eq!(run.disappear.len(), 1);
    assert_eq!(run.disappear[0].handlers, vec![8]);
    assert_eq!(run.disappear[0].events[0].0, e.inner);
}

#[test]
fn completing_a_filter_makes_the_entity_appear_and_breaking_it_disappear() {
    let mut world: W = World::new();
    world.add_appear_handler(5, FilterDesc::new(POSITION_AND_VELOCITY));
    world.add_disappear_handler(6, FilterDesc::new(POSITION_AND_VELOCITY));
    let e = committed_entity(&mut world);
    world.add_component(e, POSITION, 1).unwrap();
    let run = run_pipeline(&mut world);
    assert_eq!(run.appear.len(), 0);
    world.add_component(e, VELOCITY, 2).unwrap();
    let run = run_pipeline(&mut world);
    assert_eq!(run.appear.len(), 1);
    assert_eq!(run.appear[0].handlers, vec![5]);
    assert_eq!(run.appear[0].events.len(), 1);
    assert_eq!(run.appear[0].events[0].0, e.inner);
    world.remove_component(e, POSITION).unwrap();
    let run = run_pipeline(&mut world);
    assert_eq!(run.disappear.len(), 1);
    assert_eq!(run.disappear[0].handlers, vec![6]);
    assert_eq!(run.disappear[0].events[0].0, e.inner);
    assert_eq!(world.get_component(e, VELOCITY), Ok(Some(&2)));
    assert_eq!(world.get_component_types(e.inner), vec![VELOCITY]);
}

#[test]
fn entity_filter_reports_created_and_destroyed_entities() {
    let mut world: W = World::new();
    world.add_appear_handler(1, FilterDesc::new(EVERYTHING));
    world.add_disappear_handler(2, FilterDesc::new(EVERYTHING));
    let e = world.create_entity();
    let run = run_pipeline(&mut world);
    assert_eq!(run.appear.len(), 1);
    assert_eq!(run.appear[0].events[0].0, e.inner);
    world.destroy_entity(e).unwrap();
    let run = run_pipeline(&mut world);
    assert_eq!(run.disappear.len(), 1);
    assert_eq!(run.disappear[0].events[0].0, e.inner);
}

#[test]
fn signals_reach_global_and_entity_handlers() {
    let mut world: W = World::new();
    world.add_global_signal_handler(3);
    world.add_entity_signal_handler(4, FilterDesc::new(POSITION_ONLY));
    let e = committed_entity(&mut world);
    world.add_component(e, POSITION, 1).unwrap();
    run_pipeline(&mut world);
    world.signal("ping");
    let run = run_pipeline(&mut world);
    assert_eq!(run.signals.len(), 1);
    assert_eq!(run.signals[0].payload, "ping");
    assert_eq!(run.signals[0].global_handlers, vec![3]);
    assert_eq!(run.signals[0].entity_handlers.len(), 1);
    assert_eq!(run.signals[0].entity_handlers[0].0, 4);
    assert_eq!(run.signals[0].entity_handlers[0].1, vec![e]);
    assert_eq!(run.signals[0].cause.get_title(), "initial");
}

#[test]
fn signals_are_taken_in_the_order_they_were_sent() {
    let mut world: W = World::new();
    world.signal("first");
    world.signal("second");
    let a = world.take_signal().unwrap();
    let b = world.take_signal().unwrap();
    assert_eq!(a.payload, "first");
    assert_eq!(b.payload, "second");
    assert!(world.take_signal().is_none());
}

#[test]
fn handler_cause_wraps_the_changes_it_makes() {
    let mut world: W = World::new();
    let mut reasons = Vec::new();
    reasons.push(Cause::initial());
    let previous = world.enter_handler("on_hit", reasons);
    assert_eq!(previous.get_title(), "initial");
    world.signal("boom");
    world.leave_handler(previous);
    let run = run_pipeline(&mut world);
    assert_eq!(run.signals[0].cause.get_title(), "on_hit");
    assert_eq!(run.signals[0].cause.get_reasons().len(), 1);
    assert_eq!(run.signals[0].cause.get_reasons()[0].get_title(), "initial");
}

#[test]
fn change_buffer_applies_changes_in_order() {
    let mut world: W = World::new();
    let existing = committed_entity(&mut world);
    world.add_component(existing, POSITION, 5).unwrap();
    run_pipeline(&mut world);
    let mut generator = TemporaryEntityKeyStorage::new();
    let created = world.generate_entity_key(&mut generator);
    let created_key = created.inner;
    let mut buffer: Buffer = ChangeBuffer::new(generator);
    buffer.changes.push(Change::EntityCreate(created));
    buffer.changes.push(Change::ComponentModify(ComponentKey::new(existing.inner, POSITION), double as fn(i32) -> i32));
    buffer.changes.push(Change::ComponentAdd(ComponentKey::new(created_key, POSITION), 9));
    buffer.changes.push(Change::ComponentAdd(ComponentKey::new(existing.inner, VELOCITY), 4));
    buffer.changes.push(Change::SignalSend("done"));
    assert_eq!(buffer.apply_to(&mut world), Ok(()));
    let run = run_pipeline(&mut world);
    let created = EntityKey { inner: created_key };
    assert_eq!(world.get_component(created, POSITION), Ok(Some(&9)));
    assert_eq!(world.get_component(existing, VELOCITY), Ok(Some(&4)));
    assert_eq!(world.get_component(existing, POSITION), Ok(Some(&10)));
    assert_eq!(run.signals.len(), 1);
    assert_eq!(run.signals[0].payload, "done");
}

#[test]
fn change_buffer_refuses_a_key_that_is_not_next() {
    let mut world: W = World::new();
    let mut generator = TemporaryEntityKeyStorage::new();
    let first = world.generate_entity_key(&mut generator);
    let second = world.generate_entity_key(&mut generator);
    let second_key = second.inner;
    let mut buffer: Buffer = ChangeBuffer::new(generator);
    buffer.changes.push(Change::EntityCreate(second));
    assert_eq!(buffer.apply_to(&mut world), Err(ChangeError::CreationOutOfOrder));
    let probe = EntityKey { inner: second_key };
    assert!(!world.entity_exists(probe));
    assert_eq!(first.inner.index.index, 0);
    assert_eq!(second_key.index.index, 1);
}

#[test]
fn change_buffer_stops_at_a_refused_removal() {
    let mut world: W = World::new();
    let e = committed_entity(&mut world);
    let mut buffer: Buffer = ChangeBuffer::new(TemporaryEntityKeyStorage::new());
    buffer.changes.push(Change::SignalSend("before"));
    buffer.changes.push(Change::ComponentRemove(ComponentKey::new(e.inner, POSITION)));
    buffer.changes.push(Change::SignalSend("after"));
    assert_eq!(
        buffer.apply_to(&mut world),
        Err(ChangeError::RemovalRefused(WorldError::Component(ComponentError::NotFound(
            ComponentNotFoundError::Mapping
        ))))
    );
    let first = world.take_signal().unwrap();
    assert_eq!(first.payload, "before");
    assert!(world.take_signal().is_none());
}

#[test]
fn adding_a_committed_component_again_is_refused_at_commit() {
    let mut world: W = World::new();
    let e = committed_entity(&mut world);
    world.add_component(e, POSITION, 1).unwrap();
    run_pipeline(&mut world);
    assert_eq!(world.add_component(e, POSITION, 2), Ok(()));
    assert!(!world.additions_are_unconflicted());
    let mut ctx = ExecutionContext { cursor: 0 };
    while ctx.cursor < world.pipeline_len() && world.is_step_ready(&ctx) {
        world.execute_step(&mut ctx);
    }
    assert!(ctx.cursor < world.pipeline_len());
    assert_eq!(world.get_component(e, POSITION), Ok(Some(&1)));
}

#[test]
fn get_entity_answers_for_committed_entities_only() {
    let mut world: W = World::new();
    let e = committed_entity(&mut world);
    assert_eq!(world.get_entity(e), Some(e.inner));
    world.destroy_entity(e).unwrap();
    run_pipeline(&mut world);
    assert_eq!(world.get_entity(e), None);
    assert_eq!(
        world.validate_entity(e, ValidateUncommitted::AllowUncommitted),
        Err(EntityError::NotExists)
    );
}
