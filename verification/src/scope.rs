//! The call stack: one frame of variable and procedure bindings for the
//! outermost block, and one more for each procedure call in progress.
//!
//! Variables are searched from the top frame down. Procedures are looked up
//! in the top frame alone: a call starts with an empty table and sees only
//! what its own block declares.

use crate::ast::AstNode;
use crate::error::EvalError;
use vstd::hash_map::StringHashMap;
use vstd::prelude::*;

verus! {

/// What one frame binds.
pub struct FrameView<'a> {
    /// The variables and constants of the frame, by name.
    pub vars: Map<Seq<char>, i32>,
    /// The procedures of the frame, by name.
    pub procs: Map<Seq<char>, &'a AstNode<'a>>,
}

impl<'a> FrameView<'a> {
    /// The frame that binds nothing.
    pub open spec fn empty() -> Self {
        FrameView { vars: Map::empty(), procs: Map::empty() }
    }
}

/// The index of the topmost frame that binds the variable `name`.
pub open spec fn binding_frame(frames: Seq<FrameView>, name: Seq<char>) -> Option<int>
    decreases frames.len(),
{
    if frames.len() == 0 {
        None
    } else if frames.last().vars.contains_key(name) {
        Some(frames.len() - 1)
    } else {
        binding_frame(frames.drop_last(), name)
    }
}

/// The value of the variable `name`: that of the topmost frame that binds it.
pub open spec fn resolve(frames: Seq<FrameView>, name: Seq<char>) -> Option<i32> {
    match binding_frame(frames, name) {
        Some(i) => Some(frames[i].vars[name]),
        None => None,
    }
}

/// The stack with one more, empty frame on top.
pub open spec fn entered<'a>(frames: Seq<FrameView<'a>>) -> Seq<FrameView<'a>> {
    frames.push(FrameView::empty())
}

/// The stack after `name` was bound to `value` in the top frame.
pub open spec fn declared<'a>(frames: Seq<FrameView<'a>>, name: Seq<char>, value: i32) -> Seq<
    FrameView<'a>,
> {
    frames.update(
        frames.len() - 1,
        FrameView { vars: frames.last().vars.insert(name, value), procs: frames.last().procs },
    )
}

/// The stack after `value` was written to the variable `name` where it
/// resolves; `None` where it does not resolve.
pub open spec fn stored<'a>(frames: Seq<FrameView<'a>>, name: Seq<char>, value: i32) -> Option<
    Seq<FrameView<'a>>,
> {
    match binding_frame(frames, name) {
        Some(i) => Some(
            frames.update(
                i,
                FrameView { vars: frames[i].vars.insert(name, value), procs: frames[i].procs },
            ),
        ),
        None => None,
    }
}

/// The stack after the procedure `name` was bound to `body` in the top frame.
pub open spec fn registered<'a>(
    frames: Seq<FrameView<'a>>,
    name: Seq<char>,
    body: &'a AstNode<'a>,
) -> Seq<FrameView<'a>> {
    frames.update(
        frames.len() - 1,
        FrameView { vars: frames.last().vars, procs: frames.last().procs.insert(name, body) },
    )
}

/// The body of the procedure `name`, looked up in the top frame alone.
pub open spec fn procedure<'a>(frames: Seq<FrameView<'a>>, name: Seq<char>) -> Option<
    &'a AstNode<'a>,
> {
    if frames.len() >= 1 && frames.last().procs.contains_key(name) {
        Some(frames.last().procs[name])
    } else {
        None
    }
}

struct Frame<'a> {
    vars: StringHashMap<i32>,
    procs: StringHashMap<&'a AstNode<'a>>,
}

impl<'a> View for Frame<'a> {
    type V = FrameView<'a>;

    closed spec fn view(&self) -> FrameView<'a> {
        FrameView { vars: self.vars@, procs: self.procs@ }
    }
}

impl<'a> Frame<'a> {
    fn new() -> (frame: Self)
        ensures
            frame@ == FrameView::empty(),
    {
        Frame { vars: StringHashMap::new(), procs: StringHashMap::new() }
    }
}

/// The frames of a running program, the outermost first.
pub struct CallStack<'a> {
    frames: Vec<Frame<'a>>,
}

impl<'a> View for CallStack<'a> {
    type V = Seq<FrameView<'a>>;

    closed spec fn view(&self) -> Seq<FrameView<'a>> {
        Seq::new(self.frames@.len(), |i: int| self.frames@[i]@)
    }
}

impl<'a> CallStack<'a> {
    /// The outermost frame is always there.
    pub open spec fn wf(&self) -> bool {
        self@.len() >= 1
    }

    /// The stack of a program that starts: one empty frame.
    pub fn new() -> (stack: Self)
        ensures
            stack.wf(),
            stack@ == seq![FrameView::empty()],
    {
        let mut frames = Vec::new();
        frames.push(Frame::new());
        let stack = CallStack { frames };
        assert(stack@ =~= seq![FrameView::empty()]);
        stack
    }

    /// The number of frames.
    pub fn depth(&self) -> (depth: usize)
        ensures
            depth == self@.len(),
    {
        self.frames.len()
    }

    /// Enters a procedure call: puts an empty frame on top.
    pub fn push_frame(&mut self)
        ensures
            final(self)@ == entered(old(self)@),
            old(self).wf() ==> final(self).wf(),
    {
        self.frames.push(Frame::new());
        assert(self@ =~= entered(old(self)@));
    }

    /// Leaves a procedure call: removes the top frame. The outermost frame
    /// cannot be removed: with it alone on the stack, nothing changes and the
    /// result is `InvariantViolation`.
    pub fn pop_frame(&mut self) -> (result: Result<(), EvalError>)
        ensures
            old(self)@.len() >= 2 ==> result == Ok::<(), EvalError>(()) && final(self)@ == old(self)@.drop_last(),
            old(self)@.len() < 2 ==> result == Err::<(), EvalError>(EvalError::InvariantViolation)
                && final(self)@ == old(self)@,
            old(self).wf() ==> final(self).wf(),
    {
        if self.frames.len() >= 2 {
            self.frames.pop();
            assert(self@ =~= old(self)@.drop_last());
            Ok(())
        } else {
            Err(EvalError::InvariantViolation)
        }
    }

    /// Binds `name` to `value` in the top frame, over any earlier binding of
    /// that frame.
    pub fn declare(&mut self, name: &str, value: i32)
        requires
            old(self).wf(),
        ensures
            final(self).wf(),
            final(self)@ == declared(old(self)@, name@, value),
    {
        let top = self.frames.len() - 1;
        self.frames[top].vars.insert(name.to_owned(), value);
        assert(self@ =~= declared(old(self)@, name@, value));
    }

    /// Reads the variable `name`: the frames are searched from the top down,
    /// and the first binding found counts.
    pub fn resolve_ref(&self, name: &str) -> (result: Result<i32, EvalError>)
        ensures
            result == match resolve(self@, name@) {
                Some(value) => Ok::<i32, EvalError>(value),
                None => Err(EvalError::UnresolvedIdentifier),
            },
    {
        match self.resolve_mut(name) {
            Some(i) => match self.frames[i].vars.get(name) {
                Some(value) => Ok(*value),
                None => Err(EvalError::UnresolvedIdentifier),
            },
            None => Err(EvalError::UnresolvedIdentifier),
        }
    }

    /// Finds where the variable `name` lives: the index of the topmost frame
    /// that binds it. `assign` writes there.
    pub fn resolve_mut(&self, name: &str) -> (result: Option<usize>)
        ensures
            match result {
                Some(i) => binding_frame(self@, name@) == Some(i as int) && i < self@.len()
                    && self@[i as int].vars.contains_key(name@),
                None => binding_frame(self@, name@) is None,
            },
    {
        let mut i = self.frames.len();
        assert(self@.take(i as int) =~= self@);
        while i > 0
            invariant
                i <= self.frames@.len(),
                binding_frame(self@, name@) == binding_frame(self@.take(i as int), name@),
            decreases i,
        {
            i -= 1;
            assert(self@.take(i + 1).last() == self@[i as int]);
            assert(self@.take(i + 1).drop_last() =~= self@.take(i as int));
            if self.frames[i].vars.contains_key(name) {
                return Some(i);
            }
        }
        assert(self@.take(0).len() == 0);
        None
    }

    /// Writes `value` to the variable `name` in the topmost frame that binds
    /// it. Where no frame binds it, nothing changes and the result is
    /// `UnresolvedIdentifier`.
    pub fn assign(&mut self, name: &str, value: i32) -> (result: Result<(), EvalError>)
        ensures
            match stored(old(self)@, name@, value) {
                Some(frames) => result == Ok::<(), EvalError>(()) && final(self)@ == frames,
                None => result == Err::<(), EvalError>(EvalError::UnresolvedIdentifier) && final(self)@ == old(self)@,
            },
            old(self).wf() ==> final(self).wf(),
    {
        match self.resolve_mut(name) {
            Some(i) => {
                self.frames[i].vars.insert(name.to_owned(), value);
                assert(self@ =~= stored(old(self)@, name@, value).unwrap());
                Ok(())
            },
            None => Err(EvalError::UnresolvedIdentifier),
        }
    }

    /// Binds the procedure `name` to `body` in the top frame.
    pub fn register_procedure(&mut self, name: &str, body: &'a AstNode<'a>)
        requires
            old(self).wf(),
        ensures
            final(self).wf(),
            final(self)@ == registered(old(self)@, name@, body),
    {
        let top = self.frames.len() - 1;
        self.frames[top].procs.insert(name.to_owned(), body);
        assert(self@ =~= registered(old(self)@, name@, body));
    }

    /// Finds the body of the procedure `name` in the top frame; the frames
    /// below are not searched.
    pub fn lookup_procedure(&self, name: &str) -> (result: Result<&'a AstNode<'a>, EvalError>)
        ensures
            result == match procedure(self@, name@) {
                Some(body) => Ok::<&AstNode, EvalError>(body),
                None => Err(EvalError::UnresolvedIdentifier),
            },
    {
        if self.frames.len() == 0 {
            return Err(EvalError::UnresolvedIdentifier);
        }
        let top = self.frames.len() - 1;
        match self.frames[top].procs.get(name) {
            Some(body) => Ok(*body),
            None => Err(EvalError::UnresolvedIdentifier),
        }
    }
}

/// A frame that binds nothing hides nothing: a variable resolves through a
/// freshly entered frame to what it resolved to before.
pub proof fn lemma_fresh_frame_is_transparent(frames: Seq<FrameView>, name: Seq<char>)
    ensures
        resolve(entered(frames), name) == resolve(frames, name),
{
    let inner = entered(frames);
    assert(inner.drop_last() =~= frames);
    lemma_binding_frame_is_bound(frames, name);
}

/// Where `binding_frame` finds a frame, it is a frame of the stack and binds
/// the name.
pub proof fn lemma_binding_frame_is_bound(frames: Seq<FrameView>, name: Seq<char>)
    ensures
        match binding_frame(frames, name) {
            Some(i) => 0 <= i < frames.len() && frames[i].vars.contains_key(name) && forall|j: int|
                i < j < frames.len() ==> !(#[trigger] frames[j]).vars.contains_key(name),
            None => forall|j: int| 0 <= j < frames.len() ==> !(#[trigger] frames[j]).vars.contains_key(name),
        },
    decreases frames.len(),
{
    if frames.len() > 0 && !frames.last().vars.contains_key(name) {
        let below = frames.drop_last();
        lemma_binding_frame_is_bound(below, name);
        match binding_frame(below, name) {
            Some(i) => {
                assert forall|j: int| i < j < frames.len() implies !(#[trigger] frames[j]).vars.contains_key(
                    name,
                ) by {
                    if j < below.len() {
                        assert(below[j] == frames[j]);
                    }
                }
            },
            None => {
                assert forall|j: int| 0 <= j < frames.len() implies !(#[trigger] frames[j]).vars.contains_key(
                    name,
                ) by {
                    if j < below.len() {
                        assert(below[j] == frames[j]);
                    }
                }
            },
        }
    }
}

/// A value written to a variable of an outer frame is what a procedure
/// called afterwards reads, as long as its own frame does not declare the
/// name: the search falls through to the frame that holds the variable.
pub proof fn lemma_assignment_seen_in_call(frames: Seq<FrameView>, name: Seq<char>, value: i32)
    requires
        resolve(frames, name) is Some,
    ensures
        stored(frames, name, value) is Some,
        resolve(stored(frames, name, value).unwrap(), name) == Some(value),
        resolve(entered(stored(frames, name, value).unwrap()), name) == Some(value),
{
    let after = stored(frames, name, value).unwrap();
    lemma_store_keeps_binding_frame(frames, name, value, name);
    lemma_binding_frame_is_bound(frames, name);
    lemma_fresh_frame_is_transparent(after, name);
}

/// Writing to a variable changes no frame's set of names, so every name
/// resolves in the same frame as before.
pub proof fn lemma_store_keeps_binding_frame(
    frames: Seq<FrameView>,
    name: Seq<char>,
    value: i32,
    other: Seq<char>,
)
    requires
        stored(frames, name, value) is Some,
    ensures
        binding_frame(stored(frames, name, value).unwrap(), other) == binding_frame(frames, other),
    decreases frames.len(),
{
    let after = stored(frames, name, value).unwrap();
    let at = binding_frame(frames, name).unwrap();
    lemma_binding_frame_is_bound(frames, name);
    if at == frames.len() - 1 {
        assert(after.drop_last() =~= frames.drop_last());
    } else {
        let below = frames.drop_last();
        assert(stored(below, name, value).unwrap() =~= after.drop_last());
        lemma_store_keeps_binding_frame(below, name, value, other);
    }
}

/// A call starts without procedures: in a freshly entered frame no
/// procedure name resolves, whatever the frames below declare.
pub proof fn lemma_fresh_frame_has_no_procedures(frames: Seq<FrameView>, name: Seq<char>)
    ensures
        procedure(entered(frames), name) is None,
{
}

/// What a call declares ends with the call: once its frame is removed, the
/// stack is what it was before the call, so a procedure or variable that
/// only the callee declared resolves no more.
pub proof fn lemma_return_forgets_declarations<'a>(
    frames: Seq<FrameView<'a>>,
    proc_name: Seq<char>,
    body: &'a AstNode<'a>,
    var_name: Seq<char>,
    value: i32,
)
    ensures
        registered(entered(frames), proc_name, body).drop_last() == frames,
        declared(entered(frames), var_name, value).drop_last() == frames,
{
    assert(registered(entered(frames), proc_name, body).drop_last() =~= frames);
    assert(declared(entered(frames), var_name, value).drop_last() =~= frames);
}

} // verus!
