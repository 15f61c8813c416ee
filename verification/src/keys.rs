//! The fully-qualified, possibly-generic type that identifies an event's
//! shape, together with its mathematical model and its canonical rendering.

use vstd::prelude::*;
use vstd::string::StringExecFns;

verus! {

/// Mathematical model of an event type: a closed variant set over which all
/// contracts in this crate are stated.
#[verifier::ext_equal]
pub enum KeyModel {
    /// A primitive type, carried as its canonical textual form.
    Primitive(Seq<char>),
    /// A struct type: defining module, name, and ordered type parameters.
    Struct(StructModel),
    /// A homogeneous vector of some element type.
    Vector(Box<KeyModel>),
}

/// Model of a struct type's identity.
#[verifier::ext_equal]
pub struct StructModel {
    pub module: Seq<char>,
    pub name: Seq<char>,
    pub params: Seq<KeyModel>,
}

/// A struct event type: `module::name` with ordered type parameters.
#[derive(Debug, PartialEq, Eq)]
pub struct StructKey {
    pub module: String,
    pub name: String,
    pub type_params: Vec<EventKey>,
}

/// The fully-qualified type identifying an event's shape. Immutable once
/// built; equality is structural and deterministic across runs.
#[derive(Debug, PartialEq, Eq)]
pub enum EventKey {
    /// A primitive type, carried as its canonical textual form.
    Primitive(String),
    /// A struct type.
    Struct(StructKey),
    /// A vector of some element type.
    Vector(Box<EventKey>),
}

impl View for StructKey {
    type V = StructModel;

    open spec fn view(&self) -> StructModel
        decreases self,
    {
        StructModel {
            module: self.module@,
            name: self.name@,
            params: params_model(self.type_params@),
        }
    }
}

/// Model of a sequence of type parameters, element by element.
pub open spec fn params_model(s: Seq<EventKey>) -> Seq<KeyModel>
    decreases s,
{
    if s.len() == 0 {
        Seq::empty()
    } else {
        params_model(s.drop_last()).push(s.last()@)
    }
}

impl View for EventKey {
    type V = KeyModel;

    open spec fn view(&self) -> KeyModel
        decreases self,
    {
        match self {
            EventKey::Primitive(s) => KeyModel::Primitive(s@),
            EventKey::Struct(sk) => KeyModel::Struct(sk@),
            EventKey::Vector(e) => KeyModel::Vector(Box::new((**e)@)),
        }
    }
}

/// The model of a parameter sequence is the sequence of the models.
pub proof fn lemma_params_model(s: Seq<EventKey>)
    ensures
        params_model(s).len() == s.len(),
        forall|i: int| 0 <= i < s.len() ==> params_model(s)[i] == #[trigger] s[i]@,
    decreases s,
{
    if s.len() == 0 {
        assert(params_model(s) =~= Seq::empty());
    } else {
        lemma_params_model(s.drop_last());
        assert(params_model(s) == params_model(s.drop_last()).push(s.last()@));
        assert(params_model(s).len() == params_model(s.drop_last()).len() + 1);
        assert forall|i: int| 0 <= i < s.len() implies params_model(s)[i] == #[trigger] s[i]@ by {
            let d = s.drop_last();
            assert(params_model(s) == params_model(d).push(s.last()@));
            if i < s.len() - 1 {
                assert(d[i] == s[i]);
                assert(params_model(d).push(s.last()@)[i] == params_model(d)[i]);
            } else {
                assert(params_model(d).push(s.last()@)[i] == s.last()@);
            }
        }
    }
}

/// Structural equality of type parameter lists, element by element.
fn params_eq(a: &Vec<EventKey>, b: &Vec<EventKey>) -> (r: bool)
    ensures
        r == (params_model(a@) == params_model(b@)),
    decreases *a,
{
    proof {
        lemma_params_model(a@);
        lemma_params_model(b@);
    }
    if a.len() != b.len() {
        return false;
    }
    let n = a.len();
    let mut i: usize = 0;
    while i < n
        invariant
            n == a@.len() == b@.len(),
            0 <= i <= n,
            params_model(a@).len() == n,
            params_model(b@).len() == n,
            forall|k: int| 0 <= k < i ==> params_model(a@)[k] == params_model(b@)[k],
        decreases n - i,
    {
        if !key_eq(&a[i], &b[i]) {
            proof {
                lemma_params_model(a@);
                lemma_params_model(b@);
                assert(params_model(a@)[i as int] != params_model(b@)[i as int]);
            }
            return false;
        }
        proof {
            lemma_params_model(a@);
            lemma_params_model(b@);
        }
        i += 1;
    }
    proof {
        assert(params_model(a@) =~= params_model(b@));
    }
    true
}

/// Structural equality of event keys: true exactly when the two keys have
/// the same model.
pub fn key_eq(a: &EventKey, b: &EventKey) -> (r: bool)
    ensures
        r == (a@ == b@),
    decreases *a,
{
    match (a, b) {
        (EventKey::Primitive(x), EventKey::Primitive(y)) => {
            let e = x.eq(y);
            proof {
                assert(e == (x@ == y@));
                assert(a@ == KeyModel::Primitive(x@));
                assert(b@ == KeyModel::Primitive(y@));
                if e {
                    assert(a@ == b@);
                } else {
                    assert(a@ != b@);
                }
            }
            e
        },
        (EventKey::Struct(x), EventKey::Struct(y)) => {
            proof {
                assert(a@ == KeyModel::Struct(x@));
                assert(b@ == KeyModel::Struct(y@));
            }
            let r = x.module == y.module && x.name == y.name && params_eq(
                &x.type_params,
                &y.type_params,
            );
            proof {
                if x.module@ == y.module@ && x.name@ == y.name@ && params_model(x.type_params@)
                    == params_model(y.type_params@) {
                    assert(x@ =~= y@);
                } else {
                    assert(x@ != y@);
                }
            }
            r
        },
        (EventKey::Vector(x), EventKey::Vector(y)) => {
            proof {
                assert(a@ == KeyModel::Vector(Box::new((**x)@)));
                assert(b@ == KeyModel::Vector(Box::new((**y)@)));
            }
            key_eq(x, y)
        },
        _ => {
            proof {
                assert(a@ != b@);
            }
            false
        },
    }
}

/// Duplicates a list of type parameters; the copy has the same model.
fn params_dup(v: &Vec<EventKey>) -> (r: Vec<EventKey>)
    ensures
        params_model(r@) == params_model(v@),
    decreases *v,
{
    let n = v.len();
    let mut out: Vec<EventKey> = Vec::new();
    let mut i: usize = 0;
    while i < n
        invariant
            n == v@.len(),
            0 <= i <= n,
            out@.len() == i,
            forall|k: int| 0 <= k < i ==> out@[k]@ == #[trigger] v@[k]@,
        decreases n - i,
    {
        let d = key_dup(&v[i]);
        out.push(d);
        i += 1;
    }
    proof {
        lemma_params_model(out@);
        lemma_params_model(v@);
        assert forall|k: int| 0 <= k < n implies params_model(out@)[k] == params_model(v@)[k] by {
            assert(out@[k]@ == v@[k]@);
        }
        assert(params_model(out@) =~= params_model(v@));
    }
    out
}

/// Duplicates an event key; the copy has the same model.
pub fn key_dup(k: &EventKey) -> (r: EventKey)
    ensures
        r@ == k@,
    decreases *k,
{
    match k {
        EventKey::Primitive(s) => EventKey::Primitive(s.clone()),
        EventKey::Struct(sk) => {
            let copy = StructKey {
                module: sk.module.clone(),
                name: sk.name.clone(),
                type_params: params_dup(&sk.type_params),
            };
            proof {
                assert(copy@ =~= sk@);
            }
            EventKey::Struct(copy)
        },
        EventKey::Vector(e) => EventKey::Vector(Box::new(key_dup(e))),
    }
}

/// Canonical rendering of a type parameter list: the renderings of the
/// elements joined by `", "`.
pub open spec fn render_params(ps: Seq<KeyModel>) -> Seq<char>
    decreases ps,
{
    if ps.len() == 0 {
        Seq::empty()
    } else if ps.len() == 1 {
        render_key(ps.last())
    } else {
        render_params(ps.drop_last()) + ", "@ + render_key(ps.last())
    }
}

/// Canonical rendering of a struct type: `module::name`, followed by the
/// comma-joined renderings of the type parameters in angle brackets when
/// there are any.
pub open spec fn render_struct(sm: StructModel) -> Seq<char>
    decreases sm,
{
    let base = sm.module + "::"@ + sm.name;
    if sm.params.len() == 0 {
        base
    } else {
        base + "<"@ + render_params(sm.params) + ">"@
    }
}

/// Canonical compact rendering of an event type: primitives render as their
/// canonical textual form, vectors as `Vector<element>`, structs as
/// `module::name` with recursively rendered type parameters.
pub open spec fn render_key(k: KeyModel) -> Seq<char>
    decreases k,
{
    match k {
        KeyModel::Primitive(s) => s,
        KeyModel::Struct(sm) => render_struct(sm),
        KeyModel::Vector(e) => "Vector<"@ + render_key(*e) + ">"@,
    }
}

/// Renders an event type in its compact human-readable form.
pub fn tag_to_short_string(tag_: &EventKey) -> (r: String)
    ensures
        r@ == render_key(tag_@),
    decreases *tag_,
{
    match tag_ {
        EventKey::Struct(struct_tag) => type_to_short_string(struct_tag),
        EventKey::Vector(type_tag) => {
            let mut s = "Vector<".to_owned();
            let inner = tag_to_short_string(type_tag);
            s.append(inner.as_str());
            s.append(">");
            proof {
                assert(tag_@ == KeyModel::Vector(Box::new((**type_tag)@)));
                assert(s@ =~= "Vector<"@ + render_key((**type_tag)@) + ">"@);
            }
            s
        },
        EventKey::Primitive(p) => p.clone(),
    }
}

/// Renders a struct type as `module::name`, with its type parameters in
/// angle brackets when there are any.
pub fn type_to_short_string(type_: &StructKey) -> (r: String)
    ensures
        r@ == render_struct(type_@),
    decreases *type_,
{
    let ghost pm = params_model(type_.type_params@);
    let mut base = type_.module.clone();
    base.append("::");
    base.append(type_.name.as_str());
    proof {
        lemma_params_model(type_.type_params@);
        assert(base@ =~= type_@.module + "::"@ + type_@.name);
    }
    if type_.type_params.len() == 0 {
        return base;
    }
    base.append("<");
    let n = type_.type_params.len();
    let first = tag_to_short_string(&type_.type_params[0]);
    base.append(first.as_str());
    proof {
        assert(pm.take(1).last() == pm[0]);
        assert(render_params(pm.take(1)) == render_key(pm[0]));
        assert(pm[0] == type_.type_params@[0]@);
    }
    let mut i: usize = 1;
    while i < n
        invariant
            1 <= i <= n,
            n == type_.type_params@.len(),
            pm == params_model(type_.type_params@),
            pm.len() == n,
            forall|k: int| 0 <= k < n ==> pm[k] == #[trigger] type_.type_params@[k]@,
            base@ == type_@.module + "::"@ + type_@.name + "<"@ + render_params(
                pm.take(i as int),
            ),
        decreases n - i,
    {
        base.append(", ");
        let piece = tag_to_short_string(&type_.type_params[i]);
        base.append(piece.as_str());
        proof {
            let t = pm.take(i as int + 1);
            assert(t.drop_last() =~= pm.take(i as int));
            assert(t.last() == pm[i as int]);
            assert(render_params(t) == render_params(pm.take(i as int)) + ", "@ + render_key(
                pm[i as int],
            ));
            assert(base@ =~= type_@.module + "::"@ + type_@.name + "<"@ + render_params(t));
        }
        i += 1;
    }
    base.append(">");
    proof {
        assert(pm.take(n as int) =~= pm);
        assert(base@ =~= render_struct(type_@));
    }
    base
}

impl Clone for EventKey {
    /// The clone has the same model as the original.
    fn clone(&self) -> (r: Self)
        ensures
            r@ == self@,
    {
        key_dup(self)
    }
}

impl Clone for StructKey {
    /// The clone has the same model as the original.
    fn clone(&self) -> (r: Self)
        ensures
            r@ == self@,
    {
        let copy = StructKey {
            module: self.module.clone(),
            name: self.name.clone(),
            type_params: params_dup(&self.type_params),
        };
        proof {
            assert(copy@ =~= self@);
        }
        copy
    }
}

} // verus!
