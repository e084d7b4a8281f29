use experiment::components::{Input, Sprite};
use experiment::runtime::SimpleEntity;
use experiment::systems::{BehaviorNode, BehaviorTree, EntityState, StateMachine};

#[test]
fn behavior_tree_indices_in_insertion_order() {
    let mut t = BehaviorTree::new("patrol".to_string());
    let a = t.add_node(BehaviorNode::Action { name: "walk".to_string() });
    let b = t.add_node(BehaviorNode::Success);
    let s = t.add_node(BehaviorNode::Sequence { children: vec![a, b] });
    assert_eq!((a, b, s), (0, 1, 2));
    t.set_root(s);
    assert_eq!(t.root_id, 2);
    assert_eq!(t.nodes.len(), 3);
    assert_eq!(t.name, "patrol");
}

#[test]
fn state_machine_follows_transitions() {
    let mut sm = StateMachine::new();
    assert!(sm.is_in_state(&EntityState::Idle));
    sm.add_transition(EntityState::Idle, "go".to_string(), EntityState::Moving);
    sm.add_transition(EntityState::Moving, "hit".to_string(), EntityState::TakingDamage);
    assert!(sm.on_event("go"));
    assert!(sm.is_in_state(&EntityState::Moving));
    assert!(!sm.on_event("go"));
    assert!(sm.is_in_state(&EntityState::Moving));
    assert!(sm.on_event("hit"));
    assert!(sm.is_in_state(&EntityState::TakingDamage));
}

#[test]
fn state_machine_replaces_rule_for_same_trigger() {
    let mut sm = StateMachine::new();
    sm.add_transition(EntityState::Idle, "go".to_string(), EntityState::Moving);
    sm.add_transition(EntityState::Idle, "go".to_string(), EntityState::Dead);
    assert!(sm.on_event("go"));
    assert!(sm.is_in_state(&EntityState::Dead));
}

#[test]
fn custom_states_compare_by_name() {
    let mut sm = StateMachine::new();
    sm.add_transition(
        EntityState::Idle,
        "warp".to_string(),
        EntityState::Custom("Flying".to_string()),
    );
    assert!(sm.on_event("warp"));
    assert!(sm.is_in_state(&EntityState::Custom("Flying".to_string())));
    assert!(!sm.is_in_state(&EntityState::Custom("Swimming".to_string())));
}

#[test]
fn input_tracks_pressed_keys_without_duplicates() {
    let mut input = Input::default();
    assert!(!input.is_key_pressed("w"));
    input.press_key("w".to_string());
    input.press_key("a".to_string());
    input.press_key("w".to_string());
    assert!(input.is_key_pressed("w"));
    assert!(input.is_key_pressed("a"));
    assert_eq!(input.keys_pressed.len(), 2);
    input.release_key("w");
    assert!(!input.is_key_pressed("w"));
    assert!(input.is_key_pressed("a"));
    assert_eq!(input.keys_pressed.len(), 1);
}

#[test]
fn sprite_default_is_visible_and_blank() {
    let s = Sprite::default();
    assert!(s.visible);
    assert_eq!(s.texture_path, "");
}

#[test]
fn simple_entity_snapshot_fields() {
    let e = SimpleEntity::new("P".to_string(), "Ptag".to_string(), 95);
    assert_eq!(e.name, "P");
    assert_eq!(e.tag, "Ptag");
    assert_eq!(e.health, 95);
}
