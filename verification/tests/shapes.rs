use protobj::protobj::Heap;
use protobj::protobj::ObjectRef;
use protobj::protobj::Shype;
use protobj::protobj::ShypeRef;
use protobj::protobj::SpecificObjectView;
use protobj::protobj::SpecificShypeView;
use protobj::value::InternedString;
use protobj::value::StringRegistry;
use protobj::value::Value;

fn root_shype(h: &mut Heap) -> ShypeRef {
    h.alloc_shype(Shype::new_root())
}

fn name(reg: &mut StringRegistry, s: &str) -> InternedString {
    InternedString::get(reg, s)
}

fn names_of(h: &Heap, obj: ObjectRef) -> Vec<String> {
    SpecificObjectView::new(obj)
        .own_property_names(h)
        .iter()
        .map(|v| match v {
            Value::ImmString(s) => s.as_str().to_string(),
            _ => panic!("own_property_names yielded a non-string value"),
        })
        .collect()
}

#[test]
fn concrete_scenario_two_properties() {
    let mut h = Heap::new();
    let mut reg = StringRegistry::new();
    let root = root_shype(&mut h);
    let obj = ObjectRef::allocate(&mut h, root);
    let view = SpecificObjectView::new(obj);

    let a = name(&mut reg, "a");
    let s1 = view.set_property(&mut h, &a, Value::Int(1));
    assert_eq!(obj.get_slot(&h, 0), Value::Int(1));
    assert_eq!(s1.get_parent(&h), Some(root));
    assert_eq!(obj.shype(&h), s1);

    let b = name(&mut reg, "b");
    let s2 = view.set_property(&mut h, &b, Value::Int(2));
    assert_eq!(obj.get_slot(&h, 1), Value::Int(2));
    assert_eq!(s2.get_parent(&h), Some(s1));
    assert_eq!(obj.shype(&h), s2);

    assert_eq!(view.get_property(&h, &a), Value::Int(1));
    assert_eq!(view.get_property(&h, &b), Value::Int(2));
    assert_eq!(names_of(&h, obj), vec!["b".to_string(), "a".to_string()]);
    assert_eq!(obj.num_slots(&h), 2);
    assert_eq!(obj.next_slotno(&h), 2);
}

#[test]
fn shape_convergence_of_independent_objects() {
    let mut h = Heap::new();
    let mut reg = StringRegistry::new();
    let root = root_shype(&mut h);
    let o1 = ObjectRef::allocate(&mut h, root);
    let o2 = ObjectRef::allocate(&mut h, root);
    let x = name(&mut reg, "x");

    SpecificObjectView::new(o1).set_property(&mut h, &x, Value::Int(1));
    SpecificObjectView::new(o2).set_property(&mut h, &x, Value::Int(2));

    assert_eq!(o1.shype(&h), o2.shype(&h));
    assert_ne!(
        SpecificObjectView::new(o1).get_property(&h, &x),
        SpecificObjectView::new(o2).get_property(&h, &x)
    );
    assert_eq!(o1.get_slot(&h, 0), Value::Int(1));
    assert_eq!(o2.get_slot(&h, 0), Value::Int(2));
}

#[test]
fn order_of_additions_decides_shape_identity() {
    let mut h = Heap::new();
    let mut reg = StringRegistry::new();
    let root = root_shype(&mut h);
    let o1 = ObjectRef::allocate(&mut h, root);
    let o2 = ObjectRef::allocate(&mut h, root);
    let x = name(&mut reg, "x");
    let y = name(&mut reg, "y");

    SpecificObjectView::new(o1).set_property(&mut h, &x, Value::Int(1));
    SpecificObjectView::new(o1).set_property(&mut h, &y, Value::Int(2));
    SpecificObjectView::new(o2).set_property(&mut h, &y, Value::Int(2));
    SpecificObjectView::new(o2).set_property(&mut h, &x, Value::Int(1));

    assert_ne!(o1.shype(&h), o2.shype(&h));
    assert_eq!(names_of(&h, o1), vec!["y".to_string(), "x".to_string()]);
    assert_eq!(names_of(&h, o2), vec!["x".to_string(), "y".to_string()]);
}

#[test]
fn resetting_a_property_keeps_the_shape() {
    let mut h = Heap::new();
    let mut reg = StringRegistry::new();
    let root = root_shype(&mut h);
    let obj = ObjectRef::allocate(&mut h, root);
    let x = name(&mut reg, "x");
    let view = SpecificObjectView::new(obj);

    view.set_property(&mut h, &x, Value::Int(1));
    let shape_before = obj.shype(&h);
    view.set_property(&mut h, &x, Value::Int(5));
    assert_eq!(obj.shype(&h), shape_before);
    assert_eq!(view.get_property(&h, &x), Value::Int(5));
    assert_eq!(obj.num_slots(&h), 1);
}

#[test]
fn missing_property_resolves_through_prototype() {
    let mut h = Heap::new();
    let mut reg = StringRegistry::new();
    let root = root_shype(&mut h);
    let b = ObjectRef::allocate(&mut h, root);
    let a_name = name(&mut reg, "a");
    SpecificObjectView::new(b).set_property(&mut h, &a_name, Value::Int(7));

    let a_obj = ObjectRef::allocate(&mut h, root);
    SpecificObjectView::new(a_obj).set_prototype(&mut h, b);

    let a_view = SpecificObjectView::new(a_obj);
    assert!(!a_view.has_own_property(&h, &a_name));
    assert_eq!(a_view.get_property(&h, &a_name), Value::Int(7));

    let missing = name(&mut reg, "nowhere");
    assert_eq!(a_view.get_property(&h, &missing), Value::Bool(false));
}

#[test]
fn prototype_assignment_is_single_per_lineage() {
    let mut h = Heap::new();
    let mut reg = StringRegistry::new();
    let root = root_shype(&mut h);
    let p1 = ObjectRef::allocate(&mut h, root);
    let p2 = ObjectRef::allocate(&mut h, root);
    let obj = ObjectRef::allocate(&mut h, root);
    let other = ObjectRef::allocate(&mut h, root);
    let view = SpecificObjectView::new(obj);
    let other_view = SpecificObjectView::new(other);

    view.set_prototype(&mut h, p1);
    other_view.set_prototype(&mut h, p1);
    assert_eq!(obj.shype(&h), other.shype(&h));

    // Further property additions preserve the assigned prototype.
    let x = name(&mut reg, "x");
    view.set_property(&mut h, &x, Value::Int(3));
    assert_eq!(view.get_prototype(&h), Some(p1));

    // A second assignment branches; the object sharing the old shape still
    // reports the first prototype.
    view.set_prototype(&mut h, p2);
    assert_eq!(view.get_prototype(&h), Some(p2));
    assert_eq!(other_view.get_prototype(&h), Some(p1));
    assert_ne!(obj.shype(&h), other.shype(&h));
}

#[test]
fn reassigning_the_same_prototype_changes_nothing() {
    let mut h = Heap::new();
    let root = root_shype(&mut h);
    let p = ObjectRef::allocate(&mut h, root);
    let obj = ObjectRef::allocate(&mut h, root);
    let view = SpecificObjectView::new(obj);

    let first = view.set_prototype(&mut h, p);
    let shape_after_first = obj.shype(&h);
    let second = view.set_prototype(&mut h, p);
    assert_eq!(first, second);
    assert_eq!(obj.shype(&h), shape_after_first);
}

#[test]
fn prototype_branches_are_reused_across_objects() {
    let mut h = Heap::new();
    let root = root_shype(&mut h);
    let p = ObjectRef::allocate(&mut h, root);
    let o1 = ObjectRef::allocate(&mut h, root);
    let o2 = ObjectRef::allocate(&mut h, root);

    let n1 = SpecificObjectView::new(o1).set_prototype(&mut h, p);
    let n2 = SpecificObjectView::new(o2).set_prototype(&mut h, p);
    assert_eq!(n1, n2);
    assert_eq!(o1.shype(&h), o2.shype(&h));
}

#[test]
fn prototype_reuse_survives_an_intervening_branch() {
    let mut h = Heap::new();
    let root = root_shype(&mut h);
    let p1 = ObjectRef::allocate(&mut h, root);
    let p2 = ObjectRef::allocate(&mut h, root);
    let o1 = ObjectRef::allocate(&mut h, root);
    let o2 = ObjectRef::allocate(&mut h, root);
    let o3 = ObjectRef::allocate(&mut h, root);

    let n1 = SpecificObjectView::new(o1).set_prototype(&mut h, p1);
    SpecificObjectView::new(o2).set_prototype(&mut h, p2);
    // The third object repeats the first history; the probe scans past the
    // newer branch and converges on the first node.
    let n3 = SpecificObjectView::new(o3).set_prototype(&mut h, p1);
    assert_eq!(n1, n3);
    assert_eq!(o1.shype(&h), o3.shype(&h));
    assert_ne!(o1.shype(&h), o2.shype(&h));
}

#[test]
fn become_prototype_reuse_survives_an_intervening_branch() {
    let mut h = Heap::new();
    let root = root_shype(&mut h);
    let t1 = root_shype(&mut h);
    let t2 = root_shype(&mut h);
    let p = ObjectRef::allocate(&mut h, root);
    let q = ObjectRef::allocate(&mut h, root);
    let s = ObjectRef::allocate(&mut h, root);

    let b1 = SpecificObjectView::new(p).become_prototype_of(&mut h, t1);
    SpecificObjectView::new(q).become_prototype_of(&mut h, t2);
    let b3 = SpecificObjectView::new(s).become_prototype_of(&mut h, t1);
    assert_eq!(b1, b3);
    assert_eq!(p.shype(&h), s.shype(&h));
    assert_ne!(p.shype(&h), q.shype(&h));
}

#[test]
fn new_object_takes_an_optional_prototype() {
    let mut h = Heap::new();
    let root = root_shype(&mut h);
    let proto = ObjectRef::allocate(&mut h, root);
    let root_view = SpecificShypeView::new(root);

    let plain = root_view.new_object(&mut h, None);
    assert_eq!(SpecificObjectView::new(plain).get_prototype(&h), None);
    assert_eq!(plain.num_slots(&h), 0);
    assert_eq!(plain.shype(&h), root);

    let with_proto = root_view.new_object(&mut h, Some(proto));
    assert_eq!(
        SpecificObjectView::new(with_proto).get_prototype(&h),
        Some(proto)
    );
    assert_eq!(names_of(&h, with_proto), Vec::<String>::new());
}

#[test]
fn shype_constructors_and_root_test() {
    let mut h = Heap::new();
    let mut reg = StringRegistry::new();
    let root = root_shype(&mut h);
    assert!(root.is_root(&h));
    assert_eq!(root.get_parent(&h), None);

    let n = name(&mut reg, "n");
    let ap = h.alloc_shype(Shype::new_add_prop(&n, 0));
    assert!(!ap.is_root(&h));
    assert_eq!(ap.get_parent(&h), None);

    let obj = ObjectRef::allocate(&mut h, root);
    let sp = h.alloc_shype(Shype::new_set_proto(obj));
    assert!(!sp.is_root(&h));
    let bp = h.alloc_shype(Shype::new_become_proto(root));
    assert!(!bp.is_root(&h));
}

#[test]
fn slots_can_be_read_and_overwritten() {
    let mut h = Heap::new();
    let mut reg = StringRegistry::new();
    let root = root_shype(&mut h);
    let obj = ObjectRef::allocate(&mut h, root);
    let x = name(&mut reg, "x");
    SpecificObjectView::new(obj).set_property(&mut h, &x, Value::Int(1));
    assert_eq!(obj.get_slot(&h, 0), Value::Int(1));
    obj.set_slot(&mut h, 0, Value::Int(9));
    assert_eq!(obj.get_slot(&h, 0), Value::Int(9));
    assert_eq!(
        SpecificObjectView::new(obj).get_property(&h, &x),
        Value::Int(9)
    );
}

#[test]
fn root_path_iter_walks_to_the_root() {
    let mut h = Heap::new();
    let mut reg = StringRegistry::new();
    let root = root_shype(&mut h);
    let obj = ObjectRef::allocate(&mut h, root);
    let view = SpecificObjectView::new(obj);
    let a = name(&mut reg, "a");
    let b = name(&mut reg, "b");
    let s1 = view.set_property(&mut h, &a, Value::Int(1));
    let s2 = view.set_property(&mut h, &b, Value::Int(2));

    let mut it = SpecificShypeView::new(s2).root_path_iter();
    assert_eq!(it.next(&h), Some(s2));
    assert_eq!(it.next(&h), Some(s1));
    assert_eq!(it.next(&h), Some(root));
    assert_eq!(it.next(&h), None);
}

#[test]
fn children_iter_yields_newest_first() {
    let mut h = Heap::new();
    let mut reg = StringRegistry::new();
    let root = root_shype(&mut h);
    let o1 = ObjectRef::allocate(&mut h, root);
    let o2 = ObjectRef::allocate(&mut h, root);
    let a = name(&mut reg, "a");
    let b = name(&mut reg, "b");
    let sa = SpecificObjectView::new(o1).set_property(&mut h, &a, Value::Int(1));
    let sb = SpecificObjectView::new(o2).set_property(&mut h, &b, Value::Int(2));

    let mut it = SpecificShypeView::new(root).children_iter(&h);
    assert_eq!(it.next(&h), Some(sb));
    assert_eq!(it.next(&h), Some(sa));
    assert_eq!(it.next(&h), None);
}

#[test]
fn proto_chain_iter_follows_prototypes() {
    let mut h = Heap::new();
    let root = root_shype(&mut h);
    let b = ObjectRef::allocate(&mut h, root);
    let a = ObjectRef::allocate(&mut h, root);
    SpecificObjectView::new(a).set_prototype(&mut h, b);

    let mut it = SpecificObjectView::new(a).proto_chain_iter();
    assert_eq!(it.next(&h), Some(a));
    assert_eq!(it.next(&h), Some(b));
    assert_eq!(it.next(&h), None);
}

#[test]
fn ancestry_and_own_property_queries() {
    let mut h = Heap::new();
    let mut reg = StringRegistry::new();
    let root = root_shype(&mut h);
    let obj = ObjectRef::allocate(&mut h, root);
    let view = SpecificObjectView::new(obj);
    let a = name(&mut reg, "a");
    let s1 = view.set_property(&mut h, &a, Value::Int(1));

    let sv = SpecificShypeView::new(s1);
    assert!(sv.has_ancestor_shype(&h, root));
    assert!(sv.has_ancestor_shype(&h, s1));
    assert!(!SpecificShypeView::new(root).has_ancestor_shype(&h, s1));

    assert!(sv.has_own_property(&h, &a));
    let missing = name(&mut reg, "missing");
    assert!(!sv.has_own_property(&h, &missing));
    match sv.get_own_property(&h, &a) {
        Some((node, slot)) => {
            assert_eq!(node, s1);
            assert_eq!(slot, 0);
        },
        None => panic!("property should be defined"),
    }
    assert_eq!(sv.get_own_property(&h, &missing), None);
}

#[test]
fn become_prototype_bookkeeping_is_deduplicated() {
    let mut h = Heap::new();
    let root = root_shype(&mut h);
    let p = ObjectRef::allocate(&mut h, root);
    let target = root_shype(&mut h);
    let view = SpecificObjectView::new(p);

    let n1 = view.become_prototype_of(&mut h, target);
    let shape_after = p.shype(&h);
    let n2 = view.become_prototype_of(&mut h, target);
    assert_eq!(n1, n2);
    assert_eq!(p.shype(&h), shape_after);
}

#[test]
fn property_names_can_be_gensyms() {
    let mut h = Heap::new();
    let mut reg = StringRegistry::new();
    let root = root_shype(&mut h);
    let obj = ObjectRef::allocate(&mut h, root);
    let view = SpecificObjectView::new(obj);
    let g = InternedString::gensym(&mut reg);
    let twin = name(&mut reg, g.as_str().to_string().as_str());

    view.set_property(&mut h, &g, Value::Int(1));
    assert_eq!(view.get_property(&h, &g), Value::Int(1));
    // The interned twin has the same text but a different identity, so it is
    // a different property.
    assert!(!view.has_own_property(&h, &twin));
    assert_eq!(view.get_property(&h, &twin), Value::Bool(false));
}
