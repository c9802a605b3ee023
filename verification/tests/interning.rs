use protobj::value::InternedString;
use protobj::value::StringRegistry;

#[test]
fn intern_same_text_twice_is_identical() {
    let mut reg = StringRegistry::new();
    let a = InternedString::get(&mut reg, "foo");
    let b = InternedString::get(&mut reg, "foo");
    assert!(a == b);
    assert_eq!(a.identity(), b.identity());
    assert!(a.is_interned(&reg));
    assert!(b.is_interned(&reg));
    assert!(!a.is_gensym(&reg));
}

#[test]
fn intern_different_texts_differ() {
    let mut reg = StringRegistry::new();
    let a = InternedString::get(&mut reg, "foo");
    let b = InternedString::get(&mut reg, "bar");
    assert!(a != b);
    assert_eq!(a.as_str(), "foo");
    assert_eq!(b.as_str(), "bar");
}

#[test]
fn gensym_twice_is_distinct_and_not_interned() {
    let mut reg = StringRegistry::new();
    let g1 = InternedString::gensym(&mut reg);
    let g2 = InternedString::gensym(&mut reg);
    assert!(g1 != g2);
    assert!(g1.is_gensym(&reg));
    assert!(g2.is_gensym(&reg));
    assert_eq!(g1.as_str(), "#<gensym0>");
    assert_eq!(g2.as_str(), "#<gensym1>");
}

#[test]
fn gensym_is_distinct_despite_textual_coincidence() {
    let mut reg = StringRegistry::new();
    let named = InternedString::get(&mut reg, "#<gensym0>");
    let g = InternedString::gensym(&mut reg);
    assert_eq!(named.as_str(), g.as_str());
    assert!(named != g);
    assert!(named.is_interned(&reg));
    assert!(g.is_gensym(&reg));
}

#[test]
fn really_intern_folds_into_existing_entry() {
    let mut reg = StringRegistry::new();
    let g = InternedString::gensym(&mut reg);
    let registered = InternedString::get(&mut reg, g.as_str().to_string().as_str());
    let folded = g.really_intern(&mut reg);
    assert!(folded == registered);
    assert!(folded.is_interned(&reg));
}

#[test]
fn really_intern_registers_fresh_identity() {
    let mut reg = StringRegistry::new();
    let g = InternedString::gensym(&mut reg);
    let g_text = g.as_str().to_string();
    let folded = g.really_intern(&mut reg);
    assert_eq!(folded.as_str(), g_text.as_str());
    // The registry received its own fresh identity for the text, so this
    // very handle is still not the registered one, and other handles with
    // the same text did not silently become interned.
    assert!(folded.is_gensym(&reg));
    let registered = InternedString::get(&mut reg, g_text.as_str());
    assert!(registered != folded);
    assert!(registered.is_interned(&reg));
}

#[test]
fn really_intern_leaves_plain_names_alone() {
    let mut reg = StringRegistry::new();
    let a = InternedString::get(&mut reg, "hello");
    let b = a.clone().really_intern(&mut reg);
    assert!(a == b);
    assert!(b.is_interned(&reg));
}

#[test]
fn gensym_counter_formats_larger_numbers() {
    let mut reg = StringRegistry::new();
    let mut last = InternedString::gensym(&mut reg);
    for _ in 0..12 {
        last = InternedString::gensym(&mut reg);
    }
    assert_eq!(last.as_str(), "#<gensym12>");
}

#[test]
fn intern_empty_text() {
    let mut reg = StringRegistry::new();
    let a = InternedString::get(&mut reg, "");
    let b = InternedString::get(&mut reg, "");
    assert!(a == b);
    assert_eq!(a.as_str(), "");
    assert!(a.is_interned(&reg));
}
