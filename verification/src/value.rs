//! Interned property-name registry and the tagged slot-value union.
//!
//! An [`InternedString`] is a handle with an *identity* (a numeric id minted
//! by a [`StringRegistry`]) and a text. Equality of handles is equality of
//! identities, never of texts: two handles with equal text but different ids
//! are different names. The registry deduplicates by content: `get` returns
//! the one registered handle for a text, `gensym` mints a handle that is
//! never auto-registered, and `really_intern` folds a gensym-shaped handle
//! into the registry.

use vstd::prelude::*;
use vstd::string::StrSliceExecFns;
use vstd::string::StringExecFns;

verus! {

/// An identity-carrying string handle. Two handles are the same name exactly
/// when their identities are equal; texts may coincide without the handles
/// being the same name.
#[derive(Debug)]
pub struct InternedString {
    id: u64,
    text: String,
}

impl InternedString {
    /// The handle's identity.
    pub closed spec fn iid(&self) -> u64 {
        self.id
    }

    /// The handle's text.
    pub closed spec fn stext(&self) -> Seq<char> {
        self.text@
    }

    /// The text of the handle.
    pub fn as_str(&self) -> (r: &str)
        ensures
            r@ == self.stext(),
    {
        self.text.as_str()
    }

    /// The identity of the handle, as a number.
    pub fn identity(&self) -> (r: u64)
        ensures
            r == self.iid(),
    {
        self.id
    }
}

impl Clone for InternedString {
    fn clone(&self) -> (r: Self)
        ensures
            r == *self,
    {
        InternedString { id: self.id, text: self.text.clone() }
    }
}

impl PartialEq for InternedString {
    fn eq(&self, other: &InternedString) -> (r: bool) {
        self.id == other.id
    }
}

impl Eq for InternedString {}

impl vstd::std_specs::cmp::PartialEqSpecImpl for InternedString {
    open spec fn obeys_eq_spec() -> bool {
        true
    }

    open spec fn eq_spec(&self, other: &InternedString) -> bool {
        self.iid() == other.iid()
    }
}

/// First registered handle with the given text, if any: the registry's
/// current entry for that content.
pub open spec fn reg_lookup(es: Seq<InternedString>, t: Seq<char>) -> Option<InternedString>
    decreases es.len(),
{
    if es.len() == 0 {
        None
    } else if es[0].stext() == t {
        Some(es[0])
    } else {
        reg_lookup(es.drop_first(), t)
    }
}

/// The deduplicating name registry: maps each registered text to the one
/// handle that owns it, and mints fresh identities.
pub struct StringRegistry {
    entries: Vec<InternedString>,
    next_id: u64,
    gensym_count: u64,
}

impl StringRegistry {
    /// The registered handles, in registration order.
    pub closed spec fn entries_seq(&self) -> Seq<InternedString> {
        self.entries@
    }

    /// The next identity to be minted.
    pub closed spec fn next(&self) -> u64 {
        self.next_id
    }

    /// How many gensyms have been minted.
    pub closed spec fn gcount(&self) -> u64 {
        self.gensym_count
    }

    /// The identity registered for a text, if any.
    pub open spec fn lookup(&self, t: Seq<char>) -> Option<InternedString> {
        reg_lookup(self.entries_seq(), t)
    }

    /// Registered texts are pairwise distinct and every registered identity
    /// was minted (is below `next`).
    pub open spec fn wf(&self) -> bool {
        &&& forall|i: int|
            0 <= i < self.entries_seq().len() ==> (#[trigger] self.entries_seq()[i]).iid()
                < self.next()
        &&& forall|i: int, j: int|
            0 <= i < j < self.entries_seq().len() ==> (#[trigger] self.entries_seq()[i]).stext() != (
            #[trigger] self.entries_seq()[j]).stext()
    }

    /// An empty registry.
    pub fn new() -> (r: StringRegistry)
        ensures
            r.wf(),
            r.entries_seq().len() == 0,
            r.next() == 0,
            r.gcount() == 0,
    {
        StringRegistry { entries: Vec::new(), next_id: 0, gensym_count: 0 }
    }

    /// The next identity the registry will mint.
    pub fn next_identity(&self) -> (r: u64)
        ensures
            r == self.next(),
    {
        self.next_id
    }

    /// How many gensyms the registry has minted.
    pub fn minted_gensyms(&self) -> (r: u64)
        ensures
            r == self.gcount(),
    {
        self.gensym_count
    }

    /// Whether a handle is the registry's current entry for its own text.
    pub open spec fn spec_is_interned(&self, h: InternedString) -> bool {
        match self.lookup(h.stext()) {
            Some(e) => e.iid() == h.iid(),
            None => false,
        }
    }
}

/// If no entry among the first `n` has text `t`, the lookup is decided by the
/// remaining entries.
proof fn lemma_reg_lookup_skip(es: Seq<InternedString>, t: Seq<char>, n: int)
    requires
        0 <= n <= es.len(),
        forall|j: int| 0 <= j < n ==> (#[trigger] es[j]).stext() != t,
    ensures
        reg_lookup(es, t) == reg_lookup(es.skip(n), t),
    decreases n,
{
    if n > 0 {
        assert(es.skip(1).skip(n - 1) =~= es.skip(n));
        assert(forall|j: int| 0 <= j < n - 1 ==> (#[trigger] es.skip(1)[j]).stext() != t);
        lemma_reg_lookup_skip(es.skip(1), t, n - 1);
        assert(es.drop_first() =~= es.skip(1));
    } else {
        assert(es.skip(0) =~= es);
    }
}

/// Appending an entry leaves every earlier text's lookup unchanged, and
/// decides the appended text if it was absent.
proof fn lemma_reg_lookup_push(es: Seq<InternedString>, t: Seq<char>, e: InternedString)
    ensures
        reg_lookup(es, t) is Some ==> reg_lookup(es.push(e), t) == reg_lookup(es, t),
        reg_lookup(es, t) is None && e.stext() == t ==> reg_lookup(es.push(e), t) == Some(e),
        reg_lookup(es, t) is None && e.stext() != t ==> reg_lookup(es.push(e), t) is None,
    decreases es.len(),
{
    assert(es.push(e).len() == es.len() + 1);
    if es.len() == 0 {
        assert(es.push(e)[0] == e);
        assert(es.push(e).drop_first() =~= Seq::<InternedString>::empty());
        assert(reg_lookup(Seq::<InternedString>::empty(), t) is None);
    } else {
        assert(es.push(e)[0] == es[0]);
        lemma_reg_lookup_push(es.drop_first(), t, e);
        assert(es.push(e).drop_first() =~= es.drop_first().push(e));
        if es[0].stext() == t {
            assert(reg_lookup(es, t) == Some(es[0]));
            assert(reg_lookup(es.push(e), t) == Some(es[0]));
        } else {
            assert(reg_lookup(es, t) == reg_lookup(es.drop_first(), t));
            assert(reg_lookup(es.push(e), t) == reg_lookup(es.drop_first().push(e), t));
        }
    }
}

/// Every handle that a lookup returns is a registry entry, so its identity
/// is below `next` in a well-formed registry.
proof fn lemma_reg_lookup_id_bound(es: Seq<InternedString>, t: Seq<char>, bound: u64)
    requires
        forall|i: int| 0 <= i < es.len() ==> (#[trigger] es[i]).iid() < bound,
    ensures
        match reg_lookup(es, t) {
            Some(e) => e.iid() < bound,
            None => true,
        },
    decreases es.len(),
{
    if es.len() > 0 && es[0].stext() != t {
        lemma_reg_lookup_id_bound(es.drop_first(), t, bound);
    }
}

/// A lookup hit is one of the registry's entries.
proof fn lemma_reg_lookup_member(es: Seq<InternedString>, t: Seq<char>)
    ensures
        match reg_lookup(es, t) {
            Some(e) => exists|j: int| 0 <= j < es.len() && es[j] == e,
            None => true,
        },
    decreases es.len(),
{
    if es.len() > 0 {
        if es[0].stext() == t {
            assert(es[0] == es[0]);
        } else {
            lemma_reg_lookup_member(es.drop_first(), t);
            match reg_lookup(es.drop_first(), t) {
                Some(e) => {
                    let j = choose|j: int|
                        0 <= j < es.drop_first().len() && es.drop_first()[j] == e;
                    assert(es[j + 1] == e);
                },
                None => {},
            }
        }
    }
}

/// Interning identity: the registry's entry for a text is one handle, so two
/// interning calls for one text return one identical handle. The facts
/// required are exactly what two calls of [`InternedString::get`] ensure:
/// the first leaves the text registered to its result, the second returns
/// the registered entry.
pub proof fn lemma_intern_identity(
    reg: StringRegistry,
    t: Seq<char>,
    r1: InternedString,
    r2: InternedString,
)
    requires
        reg.lookup(t) == Some(r1),
        match reg.lookup(t) {
            Some(e) => r2 == e,
            None => false,
        },
    ensures
        r1 == r2,
{
}

/// A gensym is never interned, whatever its text: a registry whose entries
/// all carry identities other than the gensym's cannot report the gensym as
/// its current entry for any text. [`InternedString::gensym`] mints identity
/// `next`, every existing entry's identity is below `next`, and every later
/// registration mints a strictly larger identity, so this holds of the
/// registry at mint time and forever after.
pub proof fn lemma_gensym_never_interned(reg: StringRegistry, g: InternedString)
    requires
        forall|j: int|
            0 <= j < reg.entries_seq().len() ==> (#[trigger] reg.entries_seq()[j]).iid()
                != g.iid(),
    ensures
        !reg.spec_is_interned(g),
{
    lemma_reg_lookup_member(reg.entries_seq(), g.stext());
}

/// Two gensyms are two names: each mint takes the registry's `next`
/// identity and advances it, so handles minted by successive calls always
/// differ, regardless of any textual coincidence.
pub proof fn lemma_gensym_distinct(
    reg1: StringRegistry,
    reg2: StringRegistry,
    g1: InternedString,
    g2: InternedString,
)
    requires
        g1.iid() == reg1.next(),
        reg1.next() < reg2.next(),
        g2.iid() == reg2.next(),
    ensures
        g1.iid() != g2.iid(),
{
}

/// The decimal digit character for a value below ten.
pub open spec fn dec_digit(d: nat) -> char {
    if d == 0 {
        '0'
    } else if d == 1 {
        '1'
    } else if d == 2 {
        '2'
    } else if d == 3 {
        '3'
    } else if d == 4 {
        '4'
    } else if d == 5 {
        '5'
    } else if d == 6 {
        '6'
    } else if d == 7 {
        '7'
    } else if d == 8 {
        '8'
    } else {
        '9'
    }
}

/// The decimal representation of a number, most significant digit first.
pub open spec fn dec_seq(n: nat) -> Seq<char>
    decreases n,
{
    if n < 10 {
        seq![dec_digit(n)]
    } else {
        dec_seq(n / 10).push(dec_digit(n % 10))
    }
}

/// A one-character string slice for a digit value.
fn digit_str(d: u64) -> (r: &'static str)
    requires
        d < 10,
    ensures
        r@ == seq![dec_digit(d as nat)],
{
    let r: &'static str = if d == 0 {
        "0"
    } else if d == 1 {
        "1"
    } else if d == 2 {
        "2"
    } else if d == 3 {
        "3"
    } else if d == 4 {
        "4"
    } else if d == 5 {
        "5"
    } else if d == 6 {
        "6"
    } else if d == 7 {
        "7"
    } else if d == 8 {
        "8"
    } else {
        "9"
    };
    proof {
        reveal_strlit("0");
        reveal_strlit("1");
        reveal_strlit("2");
        reveal_strlit("3");
        reveal_strlit("4");
        reveal_strlit("5");
        reveal_strlit("6");
        reveal_strlit("7");
        reveal_strlit("8");
        reveal_strlit("9");
        assert(r@ =~= seq![dec_digit(d as nat)]);
    }
    r
}

/// Appends the decimal representation of `n`.
fn push_dec(s: &mut String, n: u64)
    ensures
        final(s)@ == old(s)@ + dec_seq(n as nat),
    decreases n,
{
    if n >= 10 {
        push_dec(s, n / 10);
        s.append(digit_str(n % 10));
        assert(final(s)@ =~= old(s)@ + dec_seq(n as nat));
    } else {
        s.append(digit_str(n));
        assert(final(s)@ =~= old(s)@ + dec_seq(n as nat));
    }
}

/// The text that the gensym counter value `n` produces.
pub open spec fn gensym_text(n: nat) -> Seq<char> {
    "#<gensym"@ + dec_seq(n) + ">"@
}

/// Whether a text begins with the gensym marker, the shape that
/// `really_intern` treats as promotable.
pub open spec fn gensym_shaped(t: Seq<char>) -> bool {
    t.len() >= 8 && t.subrange(0, 8) == "#<gensym"@
}

/// Whether a text begins with the gensym marker.
#[verifier::loop_isolation(false)]
fn is_gensym_shaped(s: &str) -> (r: bool)
    ensures
        r == gensym_shaped(s@),
{
    let marker = "#<gensym";
    proof {
        reveal_strlit("#<gensym");
    }
    let n = s.unicode_len();
    if n < 8 {
        return false;
    }
    let mut i: usize = 0;
    while i < 8
        invariant
            0 <= i <= 8,
            s@.len() >= 8,
            marker@ == "#<gensym"@,
            marker@.len() == 8,
            forall|j: int| 0 <= j < i ==> s@[j] == marker@[j],
        decreases 8 - i,
    {
        if s.get_char(i) != marker.get_char(i) {
            assert(s@.subrange(0, 8) != "#<gensym"@) by {
                assert(s@.subrange(0, 8)[i as int] != "#<gensym"@[i as int]);
            }
            return false;
        }
        i = i + 1;
    }
    proof {
        assert(s@.subrange(0, 8) =~= "#<gensym"@);
    }
    true
}

impl InternedString {
    /// Mints a handle whose identity is fresh and whose text is tagged with
    /// the registry's gensym counter. The handle is not registered: it is a
    /// new name regardless of any textual coincidence with registered names.
    pub fn gensym(reg: &mut StringRegistry) -> (r: InternedString)
        requires
            old(reg).wf(),
            old(reg).next() < u64::MAX,
            old(reg).gcount() < u64::MAX,
        ensures
            final(reg).wf(),
            final(reg).entries_seq() == old(reg).entries_seq(),
            final(reg).next() == old(reg).next() + 1,
            final(reg).gcount() == old(reg).gcount() + 1,
            r.iid() == old(reg).next(),
            r.stext() == gensym_text(old(reg).gcount() as nat),
            !final(reg).spec_is_interned(r),
    {
        let n = reg.gensym_count;
        reg.gensym_count = reg.gensym_count + 1;
        let mut text = String::from_str("#<gensym");
        push_dec(&mut text, n);
        text.append(">");
        let id = reg.next_id;
        reg.next_id = reg.next_id + 1;
        let r = InternedString { id, text };
        proof {
            assert forall|i: int| 0 <= i < reg.entries_seq().len() implies (
            #[trigger] reg.entries_seq()[i]).iid() < id by {
                assert(reg.entries_seq()[i] == old(reg).entries_seq()[i]);
            }
            assert forall|a: int, b: int|
                0 <= a < b < reg.entries_seq().len() implies (
            #[trigger] reg.entries_seq()[a]).stext() != (#[trigger] reg.entries_seq()[b]).stext() by {
                assert(reg.entries_seq()[a] == old(reg).entries_seq()[a]);
                assert(reg.entries_seq()[b] == old(reg).entries_seq()[b]);
            }
            lemma_reg_lookup_id_bound(reg.entries_seq(), r.stext(), id);
        }
        r
    }

    /// Returns the unique registered handle for this text, registering a
    /// fresh one if the text was absent.
    #[verifier::loop_isolation(false)]
    pub fn get(reg: &mut StringRegistry, s: &str) -> (r: InternedString)
        requires
            old(reg).wf(),
            old(reg).next() < u64::MAX,
        ensures
            final(reg).wf(),
            final(reg).gcount() == old(reg).gcount(),
            r.stext() == s@,
            match old(reg).lookup(s@) {
                Some(e) => r == e && final(reg).entries_seq() == old(reg).entries_seq()
                    && final(reg).next() == old(reg).next(),
                None => r.iid() == old(reg).next() && final(reg).entries_seq() == old(reg).entries_seq().push(r) && final(reg).next() == old(reg).next() + 1,
            },
            final(reg).lookup(s@) == Some(r),
            final(reg).spec_is_interned(r),
            forall|t: Seq<char>| t != s@ ==> final(reg).lookup(t) == old(reg).lookup(t),
    {
        let owned = s.to_owned();
        let n = reg.entries.len();
        let mut i: usize = 0;
        while i < n
            invariant
                n == reg.entries_seq().len(),
                0 <= i <= n,
                owned@ == s@,
                forall|j: int| 0 <= j < i ==> (#[trigger] reg.entries_seq()[j]).stext() != s@,
            decreases n - i,
        {
            if reg.entries[i].text == owned {
                let e = reg.entries[i].clone();
                proof {
                    lemma_reg_lookup_skip(reg.entries_seq(), s@, i as int);
                    assert(reg.entries_seq().skip(i as int)[0] == reg.entries_seq()[i as int]);
                    assert(reg.lookup(s@) == Some(e));
                }
                return e;
            }
            i = i + 1;
        }
        let id = reg.next_id;
        reg.next_id = reg.next_id + 1;
        let r = InternedString { id, text: owned };
        let entry = r.clone();
        proof {
            lemma_reg_lookup_skip(reg.entries_seq(), s@, n as int);
            assert(reg.entries_seq().skip(n as int) =~= Seq::<InternedString>::empty());
            assert(reg.lookup(s@) is None);
        }
        let ghost old_entries = reg.entries_seq();
        reg.entries.push(entry);
        proof {
            lemma_reg_lookup_push(old_entries, s@, r);
            assert forall|t: Seq<char>| t != s@ implies reg_lookup(old_entries.push(r), t)
                == reg_lookup(old_entries, t) by {
                lemma_reg_lookup_push(old_entries, t, r);
            }
            assert forall|a: int, b: int|
                0 <= a < b < reg.entries_seq().len() implies (#[trigger] reg.entries_seq()[a]).stext()
                != (#[trigger] reg.entries_seq()[b]).stext() by {
                if b == reg.entries_seq().len() - 1 {
                    if reg.entries_seq()[a].stext() == s@ {
                        lemma_reg_lookup_skip(old_entries, s@, a);
                        assert(old_entries.skip(a)[0] == old_entries[a]);
                    }
                }
            }
        }
        r
    }

    /// Folds a gensym-shaped handle into the registry: if its text is already
    /// registered, the registered handle is returned; otherwise the text is
    /// registered under a fresh identity and the handle itself is returned
    /// unchanged. Handles without the gensym marker are returned unchanged.
    #[verifier::loop_isolation(false)]
    pub fn really_intern(self, reg: &mut StringRegistry) -> (r: InternedString)
        requires
            old(reg).wf(),
            old(reg).next() < u64::MAX,
        ensures
            final(reg).wf(),
            final(reg).gcount() == old(reg).gcount(),
            final(reg).next() >= old(reg).next(),
            r.stext() == self.stext(),
            !gensym_shaped(self.stext()) ==> r == self && final(reg).entries_seq() == old(reg).entries_seq() && final(reg).next() == old(reg).next(),
            gensym_shaped(self.stext()) ==> match old(reg).lookup(self.stext()) {
                Some(e) => r == e && final(reg).entries_seq() == old(reg).entries_seq(),
                None => r == self && final(reg).lookup(self.stext()) is Some && final(reg).lookup(self.stext())->Some_0.iid() == old(reg).next(),
            },
            forall|t: Seq<char>|
                t != self.stext() ==> final(reg).lookup(t) == old(reg).lookup(t),
    {
        if !is_gensym_shaped(self.text.as_str()) {
            return self;
        }
        let n = reg.entries.len();
        let mut i: usize = 0;
        while i < n
            invariant
                n == reg.entries_seq().len(),
                0 <= i <= n,
                forall|j: int|
                    0 <= j < i ==> (#[trigger] reg.entries_seq()[j]).stext() != self.stext(),
            decreases n - i,
        {
            if reg.entries[i].text == self.text {
                let e = reg.entries[i].clone();
                proof {
                    lemma_reg_lookup_skip(reg.entries_seq(), self.stext(), i as int);
                    assert(reg.entries_seq().skip(i as int)[0] == reg.entries_seq()[i as int]);
                }
                return e;
            }
            i = i + 1;
        }
        proof {
            lemma_reg_lookup_skip(reg.entries_seq(), self.stext(), n as int);
            assert(reg.entries_seq().skip(n as int) =~= Seq::<InternedString>::empty());
        }
        // The registry gets a fresh identity for this text, so other handles
        // carrying the same text do not silently become interned.
        let id = reg.next_id;
        reg.next_id = reg.next_id + 1;
        let entry = InternedString { id, text: self.text.clone() };
        let ghost old_entries = reg.entries_seq();
        let ghost fresh = entry;
        reg.entries.push(entry);
        proof {
            lemma_reg_lookup_push(old_entries, self.stext(), fresh);
            assert forall|t: Seq<char>| t != self.stext() implies reg_lookup(old_entries.push(fresh), t)
                == reg_lookup(old_entries, t) by {
                lemma_reg_lookup_push(old_entries, t, fresh);
            }
            assert forall|a: int, b: int|
                0 <= a < b < reg.entries_seq().len() implies (#[trigger] reg.entries_seq()[a]).stext()
                != (#[trigger] reg.entries_seq()[b]).stext() by {
                if b == reg.entries_seq().len() - 1 {
                    if reg.entries_seq()[a].stext() == self.stext() {
                        lemma_reg_lookup_skip(old_entries, self.stext(), a);
                        assert(old_entries.skip(a)[0] == old_entries[a]);
                    }
                }
            }
        }
        self
    }

    /// Whether the registry's current entry for this handle's text is this
    /// very handle.
    #[verifier::loop_isolation(false)]
    pub fn is_interned(&self, reg: &StringRegistry) -> (r: bool)
        requires
            reg.wf(),
        ensures
            r == reg.spec_is_interned(*self),
    {
        let n = reg.entries.len();
        let mut i: usize = 0;
        while i < n
            invariant
                n == reg.entries_seq().len(),
                0 <= i <= n,
                forall|j: int|
                    0 <= j < i ==> (#[trigger] reg.entries_seq()[j]).stext() != self.stext(),
            decreases n - i,
        {
            if reg.entries[i].text == self.text {
                proof {
                    lemma_reg_lookup_skip(reg.entries_seq(), self.stext(), i as int);
                    assert(reg.entries_seq().skip(i as int)[0] == reg.entries_seq()[i as int]);
                }
                return reg.entries[i].id == self.id;
            }
            i = i + 1;
        }
        proof {
            lemma_reg_lookup_skip(reg.entries_seq(), self.stext(), n as int);
            assert(reg.entries_seq().skip(n as int) =~= Seq::<InternedString>::empty());
        }
        false
    }

    /// Whether the handle is not interned.
    pub fn is_gensym(&self, reg: &StringRegistry) -> (r: bool)
        requires
            reg.wf(),
        ensures
            r == !reg.spec_is_interned(*self),
    {
        !self.is_interned(reg)
    }
}

/// A slot value: the tagged union stored in an object's property slots.
/// Only the variants this layer itself stores and inspects are represented;
/// the surrounding runtime's heap-resident variants (pairs, vectors,
/// procedures, environments) live outside this layer.
#[derive(Debug)]
pub enum Value {
    Nil,
    Bool(bool),
    Int(i32),
    Symbol(InternedString),
    ImmString(InternedString),
}

impl Clone for Value {
    fn clone(&self) -> (r: Self)
        ensures
            r == *self,
    {
        match self {
            Value::Nil => Value::Nil,
            Value::Bool(b) => Value::Bool(*b),
            Value::Int(i) => Value::Int(*i),
            Value::Symbol(s) => Value::Symbol(s.clone()),
            Value::ImmString(s) => Value::ImmString(s.clone()),
        }
    }
}

impl PartialEq for Value {
    fn eq(&self, other: &Value) -> (r: bool) {
        match (self, other) {
            (Value::Nil, Value::Nil) => true,
            (Value::Bool(a), Value::Bool(b)) => a == b,
            (Value::Int(a), Value::Int(b)) => a == b,
            (Value::Symbol(a), Value::Symbol(b)) => a == b,
            (Value::ImmString(a), Value::ImmString(b)) => a == b,
            _ => false,
        }
    }
}

impl Eq for Value {}

impl vstd::std_specs::cmp::PartialEqSpecImpl for Value {
    open spec fn obeys_eq_spec() -> bool {
        true
    }

    open spec fn eq_spec(&self, other: &Value) -> bool {
        match (self, other) {
            (Value::Nil, Value::Nil) => true,
            (Value::Bool(a), Value::Bool(b)) => a == b,
            (Value::Int(a), Value::Int(b)) => a == b,
            (Value::Symbol(a), Value::Symbol(b)) => a.iid() == b.iid(),
            (Value::ImmString(a), Value::ImmString(b)) => a.iid() == b.iid(),
            _ => false,
        }
    }
}

impl Value {
    /// Whether this value is the nil value.
    pub fn is_nil(&self) -> (r: bool)
        ensures
            r == (*self is Nil),
    {
        match *self {
            Value::Nil => true,
            _ => false,
        }
    }

    /// Whether this value is a boolean.
    pub fn is_boolean(&self) -> (r: bool)
        ensures
            r == (*self is Bool),
    {
        match *self {
            Value::Bool(_) => true,
            _ => false,
        }
    }

    /// True unless this value is the false boolean: the truth test that
    /// conditional expressions apply.
    pub fn to_bool(&self) -> (r: bool)
        ensures
            r == (*self != Value::Bool(false)),
    {
        match *self {
            Value::Bool(false) => false,
            _ => true,
        }
    }

    /// The integer payload, or a failure naming the caller's context.
    pub fn as_int(self, error_msg: &str) -> (r: Result<i32, String>)
        ensures
            self matches Value::Int(i) ==> r == Ok::<i32, String>(i),
            !(self is Int) ==> (r matches Err(m) && m@ == error_msg@ + ": number required"@),
    {
        match self {
            Value::Int(i) => Ok(i),
            _ => {
                let mut m = error_msg.to_owned();
                m.append(": number required");
                Err(m)
            },
        }
    }

    /// The integer payload as a non-negative index, or a failure naming the
    /// caller's context.
    pub fn as_index(self, error_msg: &str) -> (r: Result<usize, String>)
        ensures
            self matches Value::Int(i) ==> (if i >= 0 {
                r == Ok::<usize, String>(i as usize)
            } else {
                r matches Err(m) && m@ == error_msg@ + ": negative vector index"@
            }),
            !(self is Int) ==> (r matches Err(m) && m@ == error_msg@ + ": vector index required"@),
    {
        match self {
            Value::Int(i) => {
                if i >= 0 {
                    Ok(i as usize)
                } else {
                    let mut m = error_msg.to_owned();
                    m.append(": negative vector index");
                    Err(m)
                }
            },
            _ => {
                let mut m = error_msg.to_owned();
                m.append(": vector index required");
                Err(m)
            },
        }
    }

    /// Whether this value is a symbol.
    pub fn is_symbol(&self) -> (r: bool)
        ensures
            r == (*self is Symbol),
    {
        match *self {
            Value::Symbol(_) => true,
            _ => false,
        }
    }

    /// The symbol payload, or a failure with the caller's message.
    pub fn as_symbol(self, error_msg: &str) -> (r: Result<InternedString, String>)
        ensures
            self matches Value::Symbol(s) ==> r == Ok::<InternedString, String>(s),
            !(self is Symbol) ==> (r matches Err(m) && m@ == error_msg@),
    {
        match self {
            Value::Symbol(s) => Ok(s),
            _ => Err(error_msg.to_owned()),
        }
    }

    /// Whether this value is an immutable string.
    pub fn is_string(&self) -> (r: bool)
        ensures
            r == (*self is ImmString),
    {
        match *self {
            Value::ImmString(_) => true,
            _ => false,
        }
    }

    /// The string payload, or a failure with the caller's message.
    pub fn as_string(self, error_msg: &str) -> (r: Result<InternedString, String>)
        ensures
            self matches Value::ImmString(s) ==> r == Ok::<InternedString, String>(s),
            !(self is ImmString) ==> (r matches Err(m) && m@ == error_msg@),
    {
        match self {
            Value::ImmString(s) => Ok(s),
            _ => Err(error_msg.to_owned()),
        }
    }
}

} // verus!
