use ph::particle::{ParticleId, State};

#[test]
fn state_predicates() {
    assert!(State::Dynamic.is_dynamic());
    assert!(!State::Dynamic.is_trigger());
    assert!(!State::Dynamic.is_dead());
    assert!(State::Trigger.is_trigger());
    assert!(!State::Trigger.is_dynamic());
    assert!(State::Dead.is_dead());
    assert!(!State::Asleep.is_dynamic());
    assert!(!State::Static.is_dynamic());
    assert!(!State::Static.is_dead());
}

#[test]
fn particle_ids_default_to_zero_and_compare() {
    assert!(ParticleId::default() == ParticleId::default());
}
