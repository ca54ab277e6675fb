//! The chain of lexical frames that name resolution and `return` walk.

use vstd::prelude::*;
use crate::ast::Attributes;
use crate::ast::Statement;
use crate::error::Error;
use crate::namemap::NameMap;
use crate::retval::RetView;
use crate::retval::ReturnValue;
use crate::value::values_view;
use crate::value::Value;
use crate::value::ValueView;

verus! {

/// What a name can be bound to.
#[derive(Debug)]
pub enum ScopeValue {
    /// Declared, not yet assigned.
    Undefined,
    Bool(bool),
    Algebra(Value),
    /// Parameter names, body and source position of a function.
    Function(Vec<String>, Box<Statement>, String),
    /// Attributes, parameter names, body and source position of a template.
    Template(Attributes, Vec<String>, Box<Statement>, String),
    Array(Vec<Value>),
}

/// A scope value as contracts see it.
pub enum ScopeValueView {
    Undefined,
    Bool(bool),
    Algebra(ValueView),
    Function(Vec<String>, Box<Statement>, String),
    Template(Attributes, Vec<String>, Box<Statement>, String),
    Array(Seq<ValueView>),
}

impl View for ScopeValue {
    type V = ScopeValueView;

    open spec fn view(&self) -> ScopeValueView {
        match self {
            ScopeValue::Undefined => ScopeValueView::Undefined,
            ScopeValue::Bool(b) => ScopeValueView::Bool(*b),
            ScopeValue::Algebra(v) => ScopeValueView::Algebra(v@),
            ScopeValue::Function(params, body, pos) => ScopeValueView::Function(*params, *body, *pos),
            ScopeValue::Template(attrs, params, body, pos) => ScopeValueView::Template(
                *attrs,
                *params,
                *body,
                *pos,
            ),
            ScopeValue::Array(a) => ScopeValueView::Array(values_view(a@)),
        }
    }
}

/// The scope value that holds what a `return` carried.
pub open spec fn scope_value_of_return(v: ReturnValue) -> ScopeValue {
    match v {
        ReturnValue::Bool(b) => ScopeValue::Bool(b),
        ReturnValue::Algebra(a) => ScopeValue::Algebra(a),
        ReturnValue::Array(a) => ScopeValue::Array(a),
    }
}

/// The view of the scope value that holds what a `return` carried.
pub open spec fn scope_view_of_return(v: RetView) -> ScopeValueView {
    match v {
        RetView::Bool(b) => ScopeValueView::Bool(b),
        RetView::Algebra(a) => ScopeValueView::Algebra(a),
        RetView::Array(a) => ScopeValueView::Array(a),
    }
}

/// The view of an optional return value.
pub open spec fn slot_view(v: Option<ReturnValue>) -> Option<RetView> {
    match v {
        Some(r) => Some(r@),
        None => None,
    }
}

/// The views of the values of a map.
pub open spec fn locals_view(m: Map<Seq<char>, ScopeValue>) -> Map<Seq<char>, ScopeValueView> {
    m.map_values(|v: ScopeValue| v@)
}

impl From<ReturnValue> for ScopeValue {
    fn from(v: ReturnValue) -> (r: Self)
        ensures
            r@ == scope_view_of_return(v@),
    {
        match v {
            ReturnValue::Bool(v) => ScopeValue::Bool(v),
            ReturnValue::Algebra(v) => ScopeValue::Algebra(v),
            ReturnValue::Array(v) => ScopeValue::Array(v),
        }
    }
}

impl vstd::std_specs::convert::FromSpecImpl<ReturnValue> for ScopeValue {
    open spec fn obeys_from_spec() -> bool {
        true
    }

    open spec fn from_spec(v: ReturnValue) -> Self {
        scope_value_of_return(v)
    }
}

impl From<Value> for ScopeValue {
    fn from(v: Value) -> (r: Self) {
        ScopeValue::Algebra(v)
    }
}

impl vstd::std_specs::convert::FromSpecImpl<Value> for ScopeValue {
    open spec fn obeys_from_spec() -> bool {
        true
    }

    open spec fn from_spec(v: Value) -> Self {
        ScopeValue::Algebra(v)
    }
}

/// One frame of a scope chain, as contracts see it.
pub struct FrameView {
    /// Whether the frame is the body of a function or template.
    pub is_boundary: bool,
    pub pos: Seq<char>,
    pub return_slot: Option<RetView>,
    pub locals: Map<Seq<char>, ScopeValueView>,
}

/// The value that `key` resolves to: that of the first frame that binds
/// it, looking outwards from the innermost frame through the whole chain,
/// whatever boundaries lie between.
pub open spec fn frames_resolve(fs: Seq<FrameView>, key: Seq<char>) -> Option<ScopeValueView>
    decreases fs.len(),
{
    if fs.len() == 0 {
        None
    } else if fs[0].locals.dom().contains(key) {
        Some(fs[0].locals[key])
    } else {
        frames_resolve(fs.drop_first(), key)
    }
}

/// The chain after the binding that `key` resolves to was given `v`;
/// the chain itself where `key` does not resolve.
pub open spec fn frames_update(fs: Seq<FrameView>, key: Seq<char>, v: ScopeValueView) -> Seq<FrameView>
    decreases fs.len(),
{
    if fs.len() == 0 {
        fs
    } else if fs[0].locals.dom().contains(key) {
        fs.update(0, FrameView { locals: fs[0].locals.insert(key, v), ..fs[0] })
    } else {
        seq![fs[0]] + frames_update(fs.drop_first(), key, v)
    }
}

/// The value that `key` resolves to inside the innermost body: that of the
/// first frame that binds it, looking outwards from the innermost frame up
/// to the first boundary frame and no further.
pub open spec fn frames_resolve_local(fs: Seq<FrameView>, key: Seq<char>) -> Option<ScopeValueView>
    decreases fs.len(),
{
    if fs.len() == 0 {
        None
    } else if fs[0].locals.dom().contains(key) {
        Some(fs[0].locals[key])
    } else if fs[0].is_boundary {
        None
    } else {
        frames_resolve_local(fs.drop_first(), key)
    }
}

/// The chain after the binding that `key` resolves to inside the innermost
/// body was given `v`; the chain itself where `key` does not resolve there.
pub open spec fn frames_update_local(fs: Seq<FrameView>, key: Seq<char>, v: ScopeValueView) -> Seq<
    FrameView,
>
    decreases fs.len(),
{
    if fs.len() == 0 {
        fs
    } else if fs[0].locals.dom().contains(key) {
        fs.update(0, FrameView { locals: fs[0].locals.insert(key, v), ..fs[0] })
    } else if fs[0].is_boundary {
        fs
    } else {
        seq![fs[0]] + frames_update_local(fs.drop_first(), key, v)
    }
}

/// What resolves inside the innermost body resolves to the same in the
/// whole chain.
pub proof fn law_local_binding_is_nearest(fs: Seq<FrameView>, key: Seq<char>, v: ScopeValueView)
    requires
        frames_resolve_local(fs, key) is Some,
    ensures
        frames_resolve(fs, key) == frames_resolve_local(fs, key),
        frames_update(fs, key, v) == frames_update_local(fs, key, v),
    decreases fs.len(),
{
    if fs.len() > 0 && !fs[0].locals.dom().contains(key) {
        law_local_binding_is_nearest(fs.drop_first(), key, v);
    }
}

/// The index of the innermost boundary frame.
pub open spec fn frames_boundary(fs: Seq<FrameView>) -> Option<int>
    decreases fs.len(),
{
    if fs.len() == 0 {
        None
    } else if fs[0].is_boundary {
        Some(0)
    } else {
        match frames_boundary(fs.drop_first()) {
            Some(i) => Some(i + 1),
            None => None,
        }
    }
}

/// The return slot of the innermost boundary frame.
pub open spec fn frames_pending_return(fs: Seq<FrameView>) -> Option<RetView> {
    match frames_boundary(fs) {
        Some(i) => fs[i].return_slot,
        None => None,
    }
}

/// The chain with the return slot of the innermost boundary frame set to
/// `slot`; the chain itself where it has no boundary frame.
pub open spec fn frames_with_return(fs: Seq<FrameView>, slot: Option<RetView>) -> Seq<FrameView> {
    match frames_boundary(fs) {
        Some(i) => fs.update(i, FrameView { return_slot: slot, ..fs[i] }),
        None => fs,
    }
}

/// An optional value seen through a reference.
pub open spec fn option_as_ref<T>(o: &Option<T>) -> Option<&T> {
    match o {
        Some(v) => Some(v),
        None => None,
    }
}

/// The boundary index of a chain is that of its tail, moved by one.
pub proof fn lemma_boundary_index(fs: Seq<FrameView>)
    ensures
        match frames_boundary(fs) {
            Some(i) => 0 <= i < fs.len() && fs[i].is_boundary && forall|j: int|
                0 <= j < i ==> !fs[j].is_boundary,
            None => forall|j: int| 0 <= j < fs.len() ==> !fs[j].is_boundary,
        },
    decreases fs.len(),
{
    if fs.len() > 0 && !fs[0].is_boundary {
        let t = fs.drop_first();
        lemma_boundary_index(t);
        match frames_boundary(t) {
            Some(i) => {
                assert forall|j: int| 0 <= j < i + 1 implies !fs[j].is_boundary by {
                    if j > 0 {
                        assert(t[j - 1] == fs[j]);
                    }
                }
            },
            None => {
                assert forall|j: int| 0 <= j < fs.len() implies !fs[j].is_boundary by {
                    if j > 0 {
                        assert(t[j - 1] == fs[j]);
                    }
                }
            },
        }
    }
}

/// Below `n` frames that are no boundaries, a `return` lands in the slot of
/// the boundary frame that encloses them, whatever `n` is, and stays pending
/// there; no other frame changes.
pub proof fn law_return_reaches_enclosing_boundary(fs: Seq<FrameView>, n: int, v: RetView)
    requires
        0 <= n < fs.len(),
        forall|j: int| 0 <= j < n ==> !fs[j].is_boundary,
        fs[n].is_boundary,
    ensures
        frames_boundary(fs) == Some(n),
        frames_with_return(fs, Some(v)) == fs.update(n, FrameView { return_slot: Some(v), ..fs[n] }),
        frames_pending_return(frames_with_return(fs, Some(v))) == Some(v),
{
    lemma_boundary_index(fs);
    let after = fs.update(n, FrameView { return_slot: Some(v), ..fs[n] });
    lemma_boundary_index(after);
    assert(after[n].is_boundary);
    assert forall|j: int| 0 <= j < n implies !after[j].is_boundary by {
        assert(after[j] == fs[j]);
    }
}

/// The text that `{:?}` formatting gives for a scope value.
pub uninterp spec fn scope_value_text(v: ScopeValueView) -> Seq<char>;

/// The text that `{:?}` formatting gives for a return slot.
pub uninterp spec fn return_slot_text(v: Option<RetView>) -> Seq<char>;

/// Formats a scope value with the `Debug` impl that `derive` wrote for it;
/// the contract only names the text, as a function of the value's view.
#[verifier::external_body]
fn debug_scope_value(v: &ScopeValue) -> (s: String)
    ensures
        s@ == scope_value_text(v@),
{
    format!("{:?}", v)
}

/// Formats a return slot with the `Debug` impl that `derive` wrote for it;
/// the contract only names the text, as a function of the slot's view.
#[verifier::external_body]
fn debug_return_slot(v: &Option<ReturnValue>) -> (s: String)
    ensures
        s@ == return_slot_text(slot_view(*v)),
{
    format!("{:?}", v)
}

/// The lines that show the bindings `bindings[from..]`, each a name and the
/// text of its value: two blanks, the name, a colon and a blank, the text.
pub open spec fn bindings_layout(bindings: Seq<(Seq<char>, Seq<char>)>, from: int) -> Seq<char>
    decreases bindings.len() - from,
{
    if from < 0 || from >= bindings.len() {
        Seq::empty()
    } else {
        "  "@ + bindings[from].0 + ": "@ + bindings[from].1 + "\n"@ + bindings_layout(bindings, from + 1)
    }
}

/// The text that shows a frame: a rule, its position, whether it is a
/// boundary, and the text of its return slot, a line each; and, where the
/// frame has a parent, its bindings and then the text of the parent and a
/// line break. The bindings of a frame without parent are not shown.
pub open spec fn frame_layout(
    pos: Seq<char>,
    start: bool,
    slot: Seq<char>,
    bindings: Seq<(Seq<char>, Seq<char>)>,
    outer: Option<Seq<char>>,
) -> Seq<char> {
    "--------------------------------------------\n"@ + pos + "\n"@ + "  start: "@ + (if start {
        "true"@
    } else {
        "false"@
    }) + "\n"@ + "  return_value: "@ + slot + "\n"@ + (match outer {
        Some(text) => bindings_layout(bindings, 0) + text + "\n"@,
        None => Seq::empty(),
    })
}

/// Names and texts, each by its view.
pub open spec fn bindings_view(v: Seq<(String, String)>) -> Seq<(Seq<char>, Seq<char>)> {
    Seq::new(v.len(), |i: int| (v[i].0@, v[i].1@))
}

/// The names of the bindings `entries`, each with the text of its value.
pub open spec fn binding_texts(entries: Seq<(String, ScopeValue)>) -> Seq<(Seq<char>, Seq<char>)> {
    Seq::new(entries.len(), |i: int| (entries[i].0@, scope_value_text(entries[i].1@)))
}

/// An optional text by its view.
pub open spec fn text_view(t: Option<String>) -> Option<Seq<char>> {
    match t {
        Some(x) => Some(x@),
        None => None,
    }
}

/// The text that shows a frame at `pos` with the return slot `slot`, the
/// bindings `bindings` and, where it has a parent, the parent's text
/// `outer`.
pub fn layout_frame(pos: &str, start: bool, slot: &str, bindings: &Vec<(String, String)>, outer: &Option<String>) -> (r:
    String)
    ensures
        r@ == frame_layout(pos@, start, slot@, bindings_view(bindings@), text_view(*outer)),
{
    let mut out = String::new();
    out.append("--------------------------------------------\n");
    out.append(pos);
    out.append("\n");
    out.append("  start: ");
    if start {
        out.append("true");
    } else {
        out.append("false");
    }
    out.append("\n");
    out.append("  return_value: ");
    out.append(slot);
    out.append("\n");
    match outer {
        Some(text) => {
            let ghost head = out@;
            let ghost b = bindings_view(bindings@);
            let mut i: usize = 0;
            while i < bindings.len()
                invariant
                    i <= bindings.len(),
                    b == bindings_view(bindings@),
                    out@ + bindings_layout(b, i as int) == head + bindings_layout(b, 0),
                decreases bindings.len() - i,
            {
                let ghost before = out@;
                out.append("  ");
                out.append(bindings[i].0.as_str());
                out.append(": ");
                out.append(bindings[i].1.as_str());
                out.append("\n");
                proof {
                    assert(b[i as int] == (bindings@[i as int].0@, bindings@[i as int].1@));
                    assert(out@ + bindings_layout(b, i as int + 1) =~= before + bindings_layout(b, i as int));
                }
                i += 1;
            }
            out.append(text.as_str());
            out.append("\n");
            proof {
                assert(out@ =~= frame_layout(pos@, start, slot@, b, text_view(*outer)));
            }
        },
        None => {
            proof {
                assert(out@ =~= frame_layout(pos@, start, slot@, bindings_view(bindings@), text_view(*outer)));
            }
        },
    }
    out
}

/// A lexical frame and, through `prev`, the frames that enclose it.
#[derive(Debug)]
pub struct Scope {
    /// Whether this frame is the body of a function or template.
    pub start: bool,
    pub prev: Option<Box<Scope>>,
    pub pos: String,
    pub return_value: Option<ReturnValue>,
    pub vars: NameMap<ScopeValue>,
}

impl View for Scope {
    type V = Seq<FrameView>;

    /// The frames from this one outwards.
    open spec fn view(&self) -> Seq<FrameView> {
        self.frames()
    }
}

impl Scope {
    /// This frame without its parents.
    pub open spec fn frame(&self) -> FrameView {
        FrameView {
            is_boundary: self.start,
            pos: self.pos@,
            return_slot: slot_view(self.return_value),
            locals: locals_view(self.vars@),
        }
    }

    /// The frames from this one outwards.
    pub open spec fn frames(&self) -> Seq<FrameView>
        decreases self,
    {
        seq![self.frame()] + (match self.prev {
            Some(p) => p.frames(),
            None => Seq::empty(),
        })
    }

    /// The chain behind the innermost frame.
    pub open spec fn outer_frames(&self) -> Seq<FrameView> {
        match self.prev {
            Some(p) => p.frames(),
            None => Seq::empty(),
        }
    }

    /// A chain is its innermost frame followed by the frames of its parent.
    pub proof fn lemma_frames(&self)
        ensures
            self@.len() == 1 + self.outer_frames().len(),
            self@[0] == self.frame(),
            self@.drop_first() == self.outer_frames(),
    {
        assert(self@.drop_first() =~= self.outer_frames());
    }

    /// Behind a frame that is no boundary, the return slot is that of the
    /// enclosing chain.
    pub proof fn lemma_return_passes(&self, slot: Option<RetView>)
        requires
            !self.start,
        ensures
            frames_pending_return(self@) == frames_pending_return(self.outer_frames()),
            frames_with_return(self@, slot) == seq![self.frame()] + frames_with_return(
                self.outer_frames(),
                slot,
            ),
            frames_boundary(self@) is Some <==> frames_boundary(self.outer_frames()) is Some,
    {
        self.lemma_frames();
        let t = self.outer_frames();
        lemma_boundary_index(t);
        match frames_boundary(t) {
            Some(i) => {
                assert(self@[i + 1] == t[i]);
                assert(frames_with_return(self@, slot) =~= seq![self.frame()] + frames_with_return(t, slot));
            },
            None => {
                assert(frames_with_return(self@, slot) =~= seq![self.frame()] + frames_with_return(t, slot));
            },
        }
    }

    /// The text that describes the chain: each frame from the innermost
    /// outwards in the layout of `frame_layout`, with the `{:?}` texts of
    /// its return slot and of the values of its bindings.
    pub open spec fn description(&self) -> Seq<char>
        decreases self,
    {
        frame_layout(
            self.pos@,
            self.start,
            return_slot_text(slot_view(self.return_value)),
            binding_texts(self.vars.entries()),
            match self.prev {
                Some(p) => Some(p.description()),
                None => None,
            },
        )
    }

    /// The scope value that `key` resolves to.
    pub open spec fn resolve(&self, key: Seq<char>) -> Option<ScopeValue>
        decreases self,
    {
        if self.vars@.dom().contains(key) {
            Some(self.vars@[key])
        } else {
            match self.prev {
                Some(p) => p.resolve(key),
                None => None,
            }
        }
    }

    /// The scope value that `key` resolves to inside the innermost body.
    pub open spec fn resolve_local(&self, key: Seq<char>) -> Option<ScopeValue>
        decreases self,
    {
        if self.vars@.dom().contains(key) {
            Some(self.vars@[key])
        } else if self.start {
            None
        } else {
            match self.prev {
                Some(p) => p.resolve_local(key),
                None => None,
            }
        }
    }

    /// What `key` resolves to is, by its view, what the frames say.
    pub proof fn lemma_resolve(&self, key: Seq<char>)
        ensures
            frames_resolve(self@, key) == (match self.resolve(key) {
                Some(v) => Some(v@),
                None => None,
            }),
        decreases self,
    {
        self.lemma_frames();
        reveal_with_fuel(frames_resolve, 2);
        if !self.vars@.dom().contains(key) {
            match self.prev {
                Some(p) => {
                    p.lemma_resolve(key);
                },
                None => {},
            }
        }
    }

    /// What `key` resolves to inside the innermost body is, by its view,
    /// what the frames say.
    pub proof fn lemma_resolve_local(&self, key: Seq<char>)
        ensures
            frames_resolve_local(self@, key) == (match self.resolve_local(key) {
                Some(v) => Some(v@),
                None => None,
            }),
        decreases self,
    {
        self.lemma_frames();
        reveal_with_fuel(frames_resolve_local, 2);
        if !self.vars@.dom().contains(key) && !self.start {
            match self.prev {
                Some(p) => {
                    p.lemma_resolve_local(key);
                },
                None => {},
            }
        }
    }

    /// A frame whose binding of `key` was given the value `x` is the frame
    /// that `frames_update` describes.
    pub proof fn lemma_local_update(&self, after: Scope, key: Seq<char>, x: ScopeValue)
        requires
            after.start == self.start,
            after.prev == self.prev,
            after.pos == self.pos,
            after.return_value == self.return_value,
            self.vars@.dom().contains(key),
            after.vars@ == self.vars@.insert(key, x),
        ensures
            after@ == frames_update(self@, key, x@),
            after@ == frames_update_local(self@, key, x@),
    {
        self.lemma_frames();
        after.lemma_frames();
        assert(after.frame().locals =~= self.frame().locals.insert(key, x@));
        assert(after@ =~= frames_update(self@, key, x@));
        assert(after@ =~= frames_update_local(self@, key, x@));
    }

    /// The outermost frame of the chain.
    pub open spec fn spec_root(&self) -> Scope
        decreases self,
    {
        match self.prev {
            Some(p) => p.spec_root(),
            None => *self,
        }
    }

    /// A new innermost frame in front of `prev`, without bindings and without
    /// a pending return.
    pub fn new(start: bool, prev: Option<Scope>, pos: String) -> (r: Self)
        ensures
            r.start == start,
            r.pos == pos,
            r.return_value is None,
            r.vars@ == Map::<Seq<char>, ScopeValue>::empty(),
            match prev {
                Some(p) => r.prev == Some(Box::new(p)),
                None => r.prev is None,
            },
            r@ == seq![FrameView { is_boundary: start, pos: pos@, return_slot: None, locals: Map::empty() }]
                + (match prev {
                Some(p) => p@,
                None => Seq::empty(),
            }),
    {
        let prev = match prev {
            Some(p) => Some(Box::new(p)),
            None => None,
        };
        let r = Self { start, prev, pos, return_value: None, vars: NameMap::new() };
        proof {
            assert(r.frame().locals =~= Map::<Seq<char>, ScopeValueView>::empty());
        }
        r
    }

    /// Gives up the innermost frame and returns the chain that it enclosed.
    pub fn into_prev(self) -> (r: Option<Scope>)
        ensures
            match r {
                Some(p) => self.prev == Some(Box::new(p)) && p@ == self@.drop_first(),
                None => self.prev is None && self@.len() == 1,
            },
    {
        proof {
            if self.prev is Some {
                assert(self@.drop_first() =~= self.prev.unwrap()@);
            }
        }
        match self.prev {
            Some(p) => Some(*p),
            None => None,
        }
    }

    /// The outermost frame of the chain, whatever boundaries lie between.
    pub fn root(&self) -> (r: &Scope)
        ensures
            *r == self.spec_root(),
        decreases self,
    {
        match &self.prev {
            Some(p) => p.root(),
            None => self,
        }
    }

    /// Binds `k` to `v` in the innermost frame.
    pub fn insert(&mut self, k: String, v: ScopeValue) -> (r: Result<(), Error>)
        ensures
            match r {
                Ok(_) => !old(self)@[0].locals.dom().contains(k@) && final(self)@ == old(self)@.update(
                    0,
                    FrameView { locals: old(self)@[0].locals.insert(k@, v@), ..old(self)@[0] },
                ),
                Err(e) => {
                    &&& old(self)@[0].locals.dom().contains(k@)
                    &&& *final(self) == *old(self)
                    &&& e matches Error::AlreadyDefined(name)
                    &&& name@ == k@
                },
            },
    {
        proof {
            self.lemma_frames();
        }
        if self.vars.contains_key(&k) {
            return Err(Error::AlreadyDefined(k));
        }
        proof {
            self.lemma_frames();
        }
        self.vars.insert(k, v);
        proof {
            self.lemma_frames();
            assert(self.frame().locals =~= old(self).frame().locals.insert(k@, v@));
            assert(self@ =~= old(self)@.update(
                0,
                FrameView { locals: old(self)@[0].locals.insert(k@, v@), ..old(self)@[0] },
            ));
        }
        Ok(())
    }

    /// Whether `key` resolves to a binding.
    pub fn contains_key(&self, key: &str) -> (r: bool)
        ensures
            r == frames_resolve(self@, key@) is Some,
        decreases self,
    {
        let k = key.to_owned();
        proof {
            self.lemma_frames();
            reveal_with_fuel(frames_resolve, 2);
        }
        if self.vars.contains_key(&k) {
            true
        } else {
            match &self.prev {
                Some(prev) => prev.contains_key(key),
                None => false,
            }
        }
    }

    /// The value that `key` resolves to.
    pub fn lookup(&self, key: &str) -> (r: Option<&ScopeValue>)
        ensures
            r == option_as_ref(&self.resolve(key@)),
            frames_resolve(self@, key@) == (match r {
                Some(v) => Some(v@),
                None => None,
            }),
        decreases self,
    {
        let k = key.to_owned();
        proof {
            self.lemma_resolve(key@);
        }
        match self.vars.get(&k) {
            Some(value) => Some(value),
            None => match &self.prev {
                Some(prev) => prev.lookup(key),
                None => None,
            },
        }
    }

    /// The value that `key` resolves to inside the innermost body: the
    /// search ends at the first boundary frame.
    pub fn lookup_local(&self, key: &str) -> (r: Option<&ScopeValue>)
        ensures
            r == option_as_ref(&self.resolve_local(key@)),
            frames_resolve_local(self@, key@) == (match r {
                Some(v) => Some(v@),
                None => None,
            }),
        decreases self,
    {
        let k = key.to_owned();
        proof {
            self.lemma_resolve_local(key@);
        }
        match self.vars.get(&k) {
            Some(value) => Some(value),
            None => {
                if !self.start {
                    match &self.prev {
                        Some(prev) => prev.lookup_local(key),
                        None => None,
                    }
                } else {
                    None
                }
            },
        }
    }

    /// Hands `func` the value that `key` resolves to, or nothing, and returns
    /// what `func` made of it.
    pub fn get<F, R>(&self, key: &str, func: F) -> (r: R) where F: FnOnce(Option<&ScopeValue>) -> R
        requires
            func.requires((option_as_ref(&self.resolve(key@)),)),
        ensures
            func.ensures((option_as_ref(&self.resolve(key@)),), r),
        decreases self,
    {
        let k = key.to_owned();
        match self.vars.get(&k) {
            Some(value) => func(Some(value)),
            None => match &self.prev {
                Some(prev) => prev.get(key, func),
                None => func(None),
            },
        }
    }

    /// The value that `key` resolves to, to be changed in place.
    pub fn get_mut(&mut self, key: &str) -> (r: Option<&mut ScopeValue>)
        ensures
            match r {
                Some(v) => frames_resolve(old(self)@, key@) == Some(v@) && final(self)@ == frames_update(
                    old(self)@,
                    key@,
                    final(v)@,
                ),
                None => frames_resolve(old(self)@, key@) is None && final(self)@ == old(self)@,
            },
        decreases *old(self),
    {
        let k = key.to_owned();
        proof {
            self.lemma_frames();
            reveal_with_fuel(frames_resolve, 2);
            reveal_with_fuel(frames_update, 2);
        }
        if self.vars.contains_key(&k) {
            match self.vars.get_mut(&k) {
                Some(v) => {
                    proof {
                        assert forall|after: Scope|
                            after.start == old(self).start && after.prev == old(self).prev && after.pos == old(
                                self,
                            ).pos && after.return_value == old(self).return_value && after.vars@ == old(
                                self,
                            ).vars@.insert(key@, *final(v)) implies #[trigger] after.frames() == frames_update(
                            old(self)@,
                            key@,
                            final(v)@,
                        ) by {
                            old(self).lemma_local_update(after, key@, *final(v));
                        }
                    }
                    Some(v)
                },
                None => None,
            }
        } else {
            match &mut self.prev {
                Some(prev) => prev.get_mut(key),
                None => None,
            }
        }
    }

    /// Gives the binding that `key` resolves to the value `v`.
    pub fn update(&mut self, key: &str, v: ScopeValue) -> (r: Result<(), Error>)
        ensures
            match r {
                Ok(_) => frames_resolve(old(self)@, key@) is Some && final(self)@ == frames_update(
                    old(self)@,
                    key@,
                    v@,
                ),
                Err(e) => {
                    &&& frames_resolve(old(self)@, key@) is None
                    &&& *final(self) == *old(self)
                    &&& e matches Error::NotFound(name)
                    &&& name@ == key@
                },
            },
        decreases *old(self),
    {
        let k = key.to_owned();
        proof {
            self.lemma_frames();
            reveal_with_fuel(frames_resolve, 2);
            reveal_with_fuel(frames_update, 2);
        }
        if self.vars.contains_key(&k) {
            self.vars.insert(k, v);
            proof {
                self.lemma_frames();
                assert(self.frame().locals =~= old(self).frame().locals.insert(key@, v@));
                assert(self@ =~= frames_update(old(self)@, key@, v@));
            }
            Ok(())
        } else {
            let r = match &mut self.prev {
                Some(prev) => prev.update(key, v),
                None => Err(Error::NotFound(k)),
            };
            proof {
                self.lemma_frames();
                assert(self@ =~= seq![self@[0]] + self@.drop_first());
            }
            r
        }
    }

    /// Gives the binding that `key` resolves to inside the innermost body
    /// the value `v`: the update does not cross a boundary frame.
    pub fn update_local(&mut self, key: &str, v: ScopeValue) -> (r: Result<(), Error>)
        ensures
            match r {
                Ok(_) => frames_resolve_local(old(self)@, key@) is Some && final(self)@
                    == frames_update_local(old(self)@, key@, v@),
                Err(e) => {
                    &&& frames_resolve_local(old(self)@, key@) is None
                    &&& *final(self) == *old(self)
                    &&& e matches Error::NotFound(name)
                    &&& name@ == key@
                },
            },
        decreases *old(self),
    {
        let k = key.to_owned();
        proof {
            self.lemma_frames();
            reveal_with_fuel(frames_resolve_local, 2);
            reveal_with_fuel(frames_update_local, 2);
        }
        if self.vars.contains_key(&k) {
            self.vars.insert(k, v);
            proof {
                self.lemma_frames();
                assert(self.frame().locals =~= old(self).frame().locals.insert(key@, v@));
                assert(self@ =~= frames_update_local(old(self)@, key@, v@));
            }
            Ok(())
        } else if !self.start {
            let r = match &mut self.prev {
                Some(prev) => prev.update_local(key, v),
                None => Err(Error::NotFound(k)),
            };
            proof {
                self.lemma_frames();
                assert(self@ =~= seq![self@[0]] + self@.drop_first());
            }
            r
        } else {
            Err(Error::NotFound(k))
        }
    }

    /// Puts `v` into the return slot of the innermost boundary frame.
    pub fn set_return(&mut self, v: ReturnValue) -> (r: Result<(), Error>)
        ensures
            match r {
                Ok(_) => frames_boundary(old(self)@) is Some && final(self)@ == frames_with_return(
                    old(self)@,
                    Some(v@),
                ),
                Err(e) => {
                    &&& frames_boundary(old(self)@) is None
                    &&& *final(self) == *old(self)
                    &&& e matches Error::NoEnclosingReturnTarget(p)
                    &&& p@ == old(self)@.last().pos
                },
            },
        decreases *old(self),
    {
        proof {
            self.lemma_frames();
            reveal_with_fuel(frames_boundary, 2);
        }
        if self.start {
            self.return_value = Some(v);
            proof {
                self.lemma_frames();
                assert(self@ =~= frames_with_return(old(self)@, Some(v@)));
            }
            Ok(())
        } else {
            let r = match &mut self.prev {
                Some(prev) => prev.set_return(v),
                None => Err(Error::NoEnclosingReturnTarget(self.pos.clone())),
            };
            proof {
                self.lemma_frames();
                old(self).lemma_return_passes(Some(v@));
                if r is Ok {
                    assert(self@ =~= frames_with_return(old(self)@, Some(v@)));
                }
            }
            r
        }
    }

    /// Empties the return slot of the innermost boundary frame and returns
    /// what it held.
    pub fn take_return(&mut self) -> (r: Option<ReturnValue>)
        ensures
            slot_view(r) == frames_pending_return(old(self)@),
            final(self)@ == frames_with_return(old(self)@, None),
        decreases *old(self),
    {
        proof {
            self.lemma_frames();
            reveal_with_fuel(frames_boundary, 2);
        }
        if self.start {
            let r = self.return_value.take();
            proof {
                self.lemma_frames();
                assert(self@ =~= frames_with_return(old(self)@, None));
            }
            r
        } else {
            let r = match &mut self.prev {
                Some(prev) => prev.take_return(),
                None => None,
            };
            proof {
                self.lemma_frames();
                old(self).lemma_return_passes(None);
                assert(self@ =~= frames_with_return(old(self)@, None));
            }
            r
        }
    }

    /// Whether the innermost boundary frame holds a pending return.
    pub fn has_return(&self) -> (r: bool)
        ensures
            r == frames_pending_return(self@) is Some,
        decreases self,
    {
        proof {
            self.lemma_frames();
            reveal_with_fuel(frames_boundary, 2);
        }
        if self.start {
            self.return_value.is_some()
        } else {
            proof {
                self.lemma_return_passes(None);
            }
            match &self.prev {
                Some(prev) => prev.has_return(),
                None => false,
            }
        }
    }

    /// The chain as text, in the layout of `description`.
    pub fn describe(&self) -> (r: String)
        ensures
            r@ == self.description(),
        decreases self,
    {
        let slot = debug_return_slot(&self.return_value);
        let n = self.vars.len();
        let mut bindings: Vec<(String, String)> = Vec::new();
        let mut i: usize = 0;
        while i < n
            invariant
                i <= n,
                n == self.vars.entries().len(),
                bindings@.len() == i,
                forall|j: int|
                    0 <= j < i ==> (#[trigger] bindings@[j]).0@ == self.vars.entries()[j].0@ && bindings@[j].1@
                        == scope_value_text(self.vars.entries()[j].1@),
            decreases n - i,
        {
            let text = debug_scope_value(self.vars.value_at(i));
            bindings.push((self.vars.key_at(i).clone(), text));
            i += 1;
        }
        proof {
            assert(bindings_view(bindings@) =~= binding_texts(self.vars.entries()));
        }
        let outer = match &self.prev {
            Some(prev) => Some(prev.describe()),
            None => None,
        };
        layout_frame(self.pos.as_str(), self.start, slot.as_str(), &bindings, &outer)
    }
}

} // verus!
