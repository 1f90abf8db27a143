//! Lexical scope: an arena of binding frames, each naming its parent by index.
//!
//! A frame is created with a parent that already exists, so a parent's index is
//! always below its children's, and a walk up the chain always ends.
use vstd::prelude::*;
use crate::value::{Datum, Symbol, Value};

verus! {

/// One binding of a frame.
#[derive(Debug)]
pub struct Binding {
    pub sym: Symbol,
    pub val: Value,
}

/// One level of lexical scope.
#[derive(Debug)]
pub struct Frame {
    pub bindings: Vec<Binding>,
    pub parent: Option<usize>,
}

/// Every frame ever created; a frame is named by its index.
#[derive(Debug)]
pub struct Environment {
    pub frames: Vec<Frame>,
}

/// The model of a frame: its bindings in order, and its parent.
pub struct FrameModel {
    pub bindings: Seq<(Seq<char>, Datum)>,
    pub parent: Option<nat>,
}

pub open spec fn bindings_view(b: Seq<Binding>) -> Seq<(Seq<char>, Datum)> {
    Seq::new(b.len(), |i: int| (b[i].sym.name@, b[i].val@))
}

impl Frame {
    pub open spec fn view(&self) -> FrameModel {
        FrameModel {
            bindings: bindings_view(self.bindings@),
            parent: match self.parent {
                Some(p) => Some(p as nat),
                None => None,
            },
        }
    }
}

impl Environment {
    pub open spec fn view(&self) -> Seq<FrameModel> {
        Seq::new(self.frames@.len(), |i: int| self.frames@[i]@)
    }

    /// Each parent comes before its children.
    pub open spec fn wf(&self) -> bool {
        frames_wf(self@)
    }
}

pub open spec fn frames_wf(env: Seq<FrameModel>) -> bool {
    forall|i: int|
        0 <= i < env.len() ==> match (#[trigger] env[i]).parent {
            Some(p) => p < i,
            None => true,
        }
}

/// The position of the binding of `name` in a frame, if it has one.
pub open spec fn frame_find(b: Seq<(Seq<char>, Datum)>, name: Seq<char>) -> Option<int>
    decreases b.len(),
{
    if b.len() == 0 {
        None
    } else if b.last().0 == name {
        Some(b.len() - 1)
    } else {
        frame_find(b.drop_last(), name)
    }
}

/// What `name` means in frame `f`: its binding there, or else in the nearest
/// ancestor that binds it.
pub open spec fn lookup_spec(env: Seq<FrameModel>, f: int, name: Seq<char>) -> Option<Datum>
    decreases f,
{
    if !(0 <= f < env.len()) {
        None
    } else {
        match frame_find(env[f].bindings, name) {
            Some(i) => Some(env[f].bindings[i].1),
            None => match env[f].parent {
                Some(p) => if p < f {
                    lookup_spec(env, p as int, name)
                } else {
                    None
                },
                None => None,
            },
        }
    }
}

/// The bindings after `name` is bound to `d`: an existing binding is replaced in
/// place, a new one goes at the end.
pub open spec fn bind_in(b: Seq<(Seq<char>, Datum)>, name: Seq<char>, d: Datum) -> Seq<
    (Seq<char>, Datum),
> {
    match frame_find(b, name) {
        Some(i) => b.update(i, (name, d)),
        None => b.push((name, d)),
    }
}

/// The environment after `name` is bound to `d` in frame `f` (and in no other).
pub open spec fn bind_spec(env: Seq<FrameModel>, f: int, name: Seq<char>, d: Datum) -> Seq<
    FrameModel,
> {
    if 0 <= f < env.len() {
        env.update(f, FrameModel { bindings: bind_in(env[f].bindings, name, d), parent: env[f].parent })
    } else {
        env
    }
}

/// The environment after a new empty frame under `parent` is added at the end.
pub open spec fn child_spec(env: Seq<FrameModel>, parent: int) -> Seq<FrameModel> {
    env.push(FrameModel { bindings: Seq::empty(), parent: Some(parent as nat) })
}

proof fn lemma_frame_find(b: Seq<(Seq<char>, Datum)>, name: Seq<char>)
    ensures
        match frame_find(b, name) {
            Some(i) => 0 <= i < b.len() && b[i].0 == name && forall|j: int|
                i < j < b.len() ==> b[j].0 != name,
            None => forall|j: int| 0 <= j < b.len() ==> b[j].0 != name,
        },
    decreases b.len(),
{
    if b.len() > 0 {
        lemma_frame_find(b.drop_last(), name);
        assert(forall|j: int| 0 <= j < b.len() - 1 ==> b.drop_last()[j] == b[j]);
    }
}

/// Where `sym` is bound among `bindings`, searching from the most recent binding.
pub fn find_binding(bindings: &Vec<Binding>, sym: &Symbol) -> (r: Option<usize>)
    ensures
        match r {
            Some(i) => i < bindings@.len() && frame_find(bindings_view(bindings@), sym.name@) == Some(
                i as int,
            ),
            None => frame_find(bindings_view(bindings@), sym.name@) is None,
        },
{
    let ghost b = bindings_view(bindings@);
    proof {
        lemma_frame_find(b, sym.name@);
    }
    let mut i = bindings.len();
    while i > 0
        invariant
            i <= bindings@.len(),
            b == bindings_view(bindings@),
            forall|j: int| i <= j < bindings@.len() ==> bindings@[j].sym.name@ != sym.name@,
        decreases i,
    {
        i = i - 1;
        if bindings[i].sym.name == sym.name {
            proof {
                assert(b[i as int].0 == sym.name@);
                lemma_frame_find(b, sym.name@);
                match frame_find(b, sym.name@) {
                    Some(k) => {
                        if k > i {
                            assert(b[k].0 == bindings@[k].sym.name@);
                        }
                    },
                    None => {},
                }
            }
            return Some(i);
        }
    }
    proof {
        lemma_frame_find(b, sym.name@);
    }
    None
}

impl Environment {
    /// An environment with one frame, frame 0, which has no parent.
    pub fn new_root() -> (r: Environment)
        ensures
            r@ == seq![FrameModel { bindings: Seq::empty(), parent: None }],
            r.wf(),
    {
        let mut frames: Vec<Frame> = Vec::new();
        frames.push(Frame { bindings: Vec::new(), parent: None });
        let r = Environment { frames };
        assert(bindings_view(r.frames@[0].bindings@) =~= Seq::empty());
        assert(r@ =~= seq![FrameModel { bindings: Seq::empty(), parent: None }]);
        r
    }

    /// Adds a new empty frame under `parent` and returns its index.
    pub fn new_child(&mut self, parent: usize) -> (r: usize)
        requires
            parent < old(self)@.len(),
            old(self).wf(),
        ensures
            r == old(self)@.len(),
            final(self)@ == child_spec(old(self)@, parent as int),
            final(self).wf(),
    {
        let r = self.frames.len();
        self.frames.push(Frame { bindings: Vec::new(), parent: Some(parent) });
        proof {
            assert(bindings_view(self.frames@[r as int].bindings@) =~= Seq::empty());
            assert(self@ =~= child_spec(old(self)@, parent as int));
        }
        r
    }

    /// What `sym` means in frame `f`, as a copy.
    pub fn lookup(&self, f: usize, sym: &Symbol) -> (r: Option<Value>)
        ensures
            match r {
                Some(v) => lookup_spec(self@, f as int, sym.name@) == Some(v@),
                None => lookup_spec(self@, f as int, sym.name@) is None,
            },
    {
        let mut cur = f;
        while cur < self.frames.len()
            invariant
                lookup_spec(self@, cur as int, sym.name@) == lookup_spec(self@, f as int, sym.name@),
            decreases cur,
        {
            let frame = &self.frames[cur];
            assert(self@[cur as int] == frame@);
            match find_binding(&frame.bindings, sym) {
                Some(i) => {
                    return Some(frame.bindings[i].val.duplicate());
                },
                None => {},
            }
            match frame.parent {
                Some(p) => {
                    if p < cur {
                        cur = p;
                    } else {
                        return None;
                    }
                },
                None => {
                    return None;
                },
            }
        }
        None
    }

    /// Binds `sym` to `val` in frame `f`; a frame that does not exist is left alone.
    pub fn bind(&mut self, f: usize, sym: Symbol, val: Value)
        requires
            old(self).wf(),
        ensures
            final(self)@ == bind_spec(old(self)@, f as int, sym.name@, val@),
            final(self).wf(),
    {
        if f >= self.frames.len() {
            return;
        }
        let ghost b = old(self)@[f as int].bindings;
        let ghost name = sym.name@;
        let ghost d = val@;
        assert(b == bindings_view(self.frames@[f as int].bindings@));
        let found = find_binding(&self.frames[f].bindings, &sym);
        let mut frame = self.frames.remove(f);
        match found {
            Some(i) => {
                frame.bindings.set(i, Binding { sym, val });
            },
            None => {
                frame.bindings.push(Binding { sym, val });
            },
        }
        self.frames.insert(f, frame);
        proof {
            assert(bindings_view(frame.bindings@) =~= bind_in(b, name, d));
            assert(self@ =~= bind_spec(old(self)@, f as int, name, d));
        }
    }
}

/// After `name` is bound to `d` in an existing frame, `name` means `d` there.
pub proof fn lemma_lookup_after_bind(env: Seq<FrameModel>, f: int, name: Seq<char>, d: Datum)
    requires
        0 <= f < env.len(),
    ensures
        lookup_spec(bind_spec(env, f, name, d), f, name) == Some(d),
{
    let b = env[f].bindings;
    let nb = bind_in(b, name, d);
    lemma_frame_find(b, name);
    lemma_frame_find(nb, name);
    match frame_find(b, name) {
        Some(i) => {
            match frame_find(nb, name) {
                Some(k) => {
                    if k > i {
                        assert(nb[k] == b[k]);
                    }
                    if k < i {
                        assert(nb[i].0 == name);
                    }
                },
                None => {
                    assert(nb[i].0 == name);
                },
            }
        },
        None => {
            assert(nb.drop_last() =~= b);
        },
    }
}

} // verus!
