use deadlocker::acquire::{acquire_in_order, Acquisition};
use deadlocker::attribute::{Attribute, AttributeAugment, ConfigError};
use deadlocker::field::{participating, Field, FieldAugment};
use deadlocker::generators::generate_plan;
use deadlocker::path::{AttrPath, PathAugment};
use deadlocker::state::{LockStep, State};

fn flag(name: &str) -> Attribute {
    Attribute { path: AttrPath { text: name.to_string() }, value: None }
}

fn valued(name: &str, value: &str) -> Attribute {
    Attribute { path: AttrPath { text: name.to_string() }, value: Some(value.to_string()) }
}

fn field(name: &str, ty: &str, attrs: Vec<Attribute>) -> Field {
    Field { name: name.to_string(), ty: ty.to_string(), attrs }
}

fn three() -> Vec<Field> {
    vec![
        field("foo", "Arc<Mutex<usize>>", vec![]),
        field("bar", "Arc<Mutex<String>>", vec![]),
        field("baz", "Arc<Mutex<Vec<u8>>>", vec![]),
    ]
}

fn step(index: usize, fallible: bool) -> LockStep {
    LockStep { index, field: format!("f{}", index), lock_method: "lock()".to_string(), fallible }
}

#[test]
fn lattice_has_one_state_per_subset() {
    let states = State::empty(3).into_substates();
    assert_eq!(states.len(), 8);
    for a in 0..states.len() {
        for b in (a + 1)..states.len() {
            assert_ne!(states[a].selected, states[b].selected);
        }
    }
    let subset = vec![true, false, true];
    assert_eq!(states.iter().filter(|s| s.selected == subset).count(), 1);
}

#[test]
fn lattice_from_a_partial_state_keeps_its_selection() {
    let start = State::empty(3).add_state(1);
    let states = start.into_substates();
    assert_eq!(states.len(), 4);
    assert!(states.iter().all(|s| s.selected[1]));
}

#[test]
fn empty_lattice_is_the_root_alone() {
    let states = State::empty(0).into_substates();
    assert_eq!(states.len(), 1);
    assert!(states[0].selected.is_empty());
}

#[test]
fn selection_order_does_not_change_acquisition_order() {
    let fields = three();
    let bar_then_foo = State::empty(3).add_state(1).add_state(0);
    let foo_then_bar = State::empty(3).add_state(0).add_state(1);
    assert_eq!(bar_then_foo.selected, foo_then_bar.selected);
    let a = bar_then_foo.locked_fields(&fields).unwrap();
    let b = foo_then_bar.locked_fields(&fields).unwrap();
    let names_a: Vec<&str> = a.iter().map(|s| s.field.as_str()).collect();
    let names_b: Vec<&str> = b.iter().map(|s| s.field.as_str()).collect();
    assert_eq!(names_a, vec!["foo", "bar"]);
    assert_eq!(names_a, names_b);
}

#[test]
fn active_and_complements_follow_declaration_order() {
    let s = State::empty(4).add_state(3).add_state(1);
    assert_eq!(s.active(), vec![1, 3]);
    assert_eq!(s.complements(), vec![0, 2]);
}

#[test]
fn empty_state_is_named_empty() {
    let fields = three();
    assert_eq!(State::empty(3).name(&fields), "Empty");
    assert_eq!(State::empty(3).ident("Thing", &fields), "ThingLockerEmpty");
}

#[test]
fn state_names_are_camel_cased_in_declaration_order() {
    let fields = three();
    let s = State::empty(3).add_state(2).add_state(0);
    assert_eq!(s.name(&fields), "FooBaz");
    assert_eq!(s.ident("Thing", &fields), "ThingLockerFooBaz");
}

#[test]
fn underscores_are_spelt_out() {
    let fields = vec![field("my_lock", "Arc<Mutex<u8>>", vec![]), field("_x", "Arc<Mutex<u8>>", vec![])];
    let s = State::empty(2).add_state(0);
    assert_eq!(s.name(&fields), "MyUnderscoreLock");
    let t = State::empty(2).add_state(1);
    assert_eq!(t.name(&fields), "UnderscoreX");
}

#[test]
fn all_state_names_differ() {
    let fields = three();
    let states = State::empty(3).into_substates();
    let names: Vec<String> = states.iter().map(|s| s.name(&fields)).collect();
    for a in 0..names.len() {
        for b in (a + 1)..names.len() {
            assert_ne!(names[a], names[b]);
        }
    }
}

#[test]
fn exclusion_and_inclusion_select_the_same_resources() {
    let by_exclusion = vec![
        field("a", "Arc<Mutex<u8>>", vec![]),
        field("b", "Arc<Mutex<u8>>", vec![flag("exclude")]),
        field("c", "Arc<Mutex<u8>>", vec![]),
    ];
    let by_inclusion = vec![
        field("a", "Arc<Mutex<u8>>", vec![flag("include")]),
        field("b", "Arc<Mutex<u8>>", vec![]),
        field("c", "Arc<Mutex<u8>>", vec![flag("include")]),
    ];
    assert_eq!(participating(&by_exclusion), vec![0, 2]);
    assert_eq!(participating(&by_inclusion), vec![0, 2]);
}

#[test]
fn include_wins_over_plain_fields() {
    let fields = vec![
        field("a", "Arc<Mutex<u8>>", vec![]),
        field("b", "Arc<Mutex<u8>>", vec![flag("include")]),
    ];
    assert_eq!(participating(&fields), vec![1]);
    assert_eq!(participating(&three()), vec![0, 1, 2]);
}

#[test]
fn fallible_chain_stops_at_first_failure() {
    let steps = vec![step(0, true), step(1, true), step(2, true)];
    let run = acquire_in_order(&steps, &vec![true, false, true]);
    assert_eq!(run, Acquisition { attempted: 2, failed: Some(1) });
}

#[test]
fn infallible_steps_never_fail() {
    let steps = vec![step(0, false), step(1, true)];
    let run = acquire_in_order(&steps, &vec![false, true]);
    assert_eq!(run, Acquisition { attempted: 2, failed: None });
}

#[test]
fn asynchronous_resource_makes_its_states_suspend() {
    let fields = vec![
        field("a", "Arc<Mutex<u8>>", vec![]),
        field("b", "Arc<Mutex<u8>>", vec![flag("is_async")]),
        field("c", "Arc<Mutex<u8>>", vec![]),
    ];
    for s in State::empty(3).into_substates() {
        assert_eq!(s.is_async(&fields), s.selected[1]);
    }
    assert_eq!(fields[1].lock_method().unwrap(), "lock().await");
    assert_eq!(fields[0].lock_method().unwrap(), "lock()");
}

#[test]
fn fallible_resource_makes_its_states_fallible() {
    let fields = vec![field("a", "Arc<Mutex<u8>>", vec![flag("result")]), field("b", "Arc<Mutex<u8>>", vec![])];
    assert!(State::empty(2).add_state(0).is_result(&fields));
    assert!(!State::empty(2).add_state(1).is_result(&fields));
}

#[test]
fn inner_type_override_ignores_the_declared_type() {
    let f = field("a", "Weird<Shape>", vec![valued("inner_type", "\"usize\"")]);
    assert_eq!(f.return_type(), Ok("usize".to_string()));
    let g = field("a", "Weird<Shape>", vec![]);
    assert_eq!(g.return_type(), Err(ConfigError::TypeExtractionError));
}

#[test]
fn default_wrapper_is_stripped() {
    let f = field("a", "Arc < Mutex < Vec < u8 > > >", vec![]);
    assert_eq!(f.return_type(), Ok("Vec<u8>".to_string()));
}

#[test]
fn outer_type_override_is_used() {
    let f = field("a", "Rc<RwLock<u32>>", vec![valued("outer_type", "\"Rc<RwLock<(.*)>>\"")]);
    assert_eq!(f.return_type(), Ok("u32".to_string()));
}

#[test]
fn lock_method_override_is_used() {
    let f = field("a", "Arc<Mutex<u8>>", vec![flag("is_async"), valued("lock_method", "\"write().await\"")]);
    assert_eq!(f.lock_method(), Ok("write().await".to_string()));
}

#[test]
fn malformed_directive_is_an_error() {
    let f = field("a", "Arc<Mutex<u8>>", vec![flag("inner_type")]);
    assert_eq!(f.return_type(), Err(ConfigError::MalformedDirective));
    assert_eq!(flag("lock_method").extract_val(), Err(ConfigError::MalformedDirective));
    let g = field("a", "Arc<Mutex<u8>>", vec![flag("lock_method")]);
    assert!(g.describe().is_err());
}

#[test]
fn directive_values_lose_quotes_and_spaces() {
    assert_eq!(valued("inner_type", "\" Vec < u8 > \"").extract_val(), Ok("Vec<u8>".to_string()));
    assert!(valued("include", "x").str_equals("include"));
    assert!(!valued("include", "x").str_equals("exclude"));
    assert!(AttrPath { text: "result".to_string() }.str_equals("result"));
    assert!(!AttrPath { text: "result".to_string() }.str_equals("resul"));
}

#[test]
fn plan_covers_every_state() {
    let fields = vec![
        field("foo", "Arc<Mutex<usize>>", vec![flag("result")]),
        field("bar", "Arc<Mutex<String>>", vec![flag("is_async")]),
    ];
    let plan = generate_plan("Thing", &fields).unwrap();
    assert_eq!(plan.builder, "ThingLocker");
    assert_eq!(plan.empty, "ThingLockerEmpty");
    assert_eq!(plan.states.len(), 4);
    let both = plan.states.iter().find(|s| s.selected == vec![true, true]).unwrap();
    assert_eq!(both.ident, "ThingLockerFooBar");
    assert!(both.transitions.is_empty());
    assert!(both.is_async && both.is_result);
    assert_eq!(both.guards[0].inner_type, "usize");
    assert_eq!(both.guards[1].inner_type, "String");
    assert_eq!(both.steps[1].lock_method, "lock().await");
    let root = plan.states.iter().find(|s| s.selected == vec![false, false]).unwrap();
    assert_eq!(root.transitions.len(), 2);
    assert_eq!(root.transitions[0].field, "foo");
    assert_eq!(root.transitions[0].target, "ThingLockerFoo");
    assert_eq!(root.transitions[1].target, "ThingLockerBar");
    assert!(root.steps.is_empty() && !root.is_async && !root.is_result);
}

#[test]
fn plan_reports_classification_errors() {
    let fields = vec![field("foo", "Plain", vec![])];
    assert_eq!(generate_plan("Thing", &fields).err(), Some(ConfigError::TypeExtractionError));
}

#[test]
fn non_ascii_first_letter_is_upper_cased() {
    let fields = vec![field("élan", "Arc<Mutex<u8>>", vec![]), field("x_ß", "Arc<Mutex<u8>>", vec![])];
    assert_eq!(State::empty(2).add_state(0).name(&fields), "Élan");
    assert_eq!(State::empty(2).add_state(1).name(&fields), "XUnderscoreSS");
}

#[test]
fn ten_resources_give_1024_states() {
    let states = State::empty(10).into_substates();
    assert_eq!(states.len(), 1024);
    let full = states.iter().filter(|s| s.selected.iter().all(|b| *b)).count();
    assert_eq!(full, 1);
}
