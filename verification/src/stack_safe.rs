//! Stack-safe parsing: a recursion depth limit, cycle detection over
//! object references, and a time limit for long-running parses.

use vstd::prelude::*;
use crate::error::{ParseError, ParseResult};
use crate::text::{decimal_seq, push_decimal};

verus! {

#[verifier::external_type_specification]
#[verifier::external_body]
pub struct ExInstant(std::time::Instant);

/// Maximum recursion depth for PDF parsing operations.
pub const MAX_RECURSION_DEPTH: usize = 1000;

/// Timeout for long-running parsing operations (in seconds).
pub const PARSING_TIMEOUT_SECS: u64 = 30;

/// `std::time::Instant::now`. Nothing is claimed of the instant it gives.
#[verifier::external_body]
fn instant_now() -> std::time::Instant {
    std::time::Instant::now()
}

/// `Instant::elapsed` compared with `>` against `Duration::from_secs(secs)`
/// (the seconds converted to a duration): whether more than `secs` seconds
/// have passed since `start`. Nothing is claimed: the answer depends on
/// the clock.
#[verifier::external_body]
fn elapsed_exceeds(start: &std::time::Instant, secs: u64) -> bool {
    start.elapsed() > std::time::Duration::from_secs(secs)
}

/// A node of a list of object references.
#[derive(Debug)]
struct RefNode {
    item: (u32, u16),
    next: Option<Box<RefNode>>,
}

/// The references held by a list.
spec fn list_refs(l: Option<Box<RefNode>>) -> Set<(u32, u16)>
    decreases l,
{
    match l {
        None => Set::empty(),
        Some(node) => list_refs(node.next).insert(node.item),
    }
}

/// Whether the list holds `r`.
fn list_contains(l: &Option<Box<RefNode>>, r: (u32, u16)) -> (b: bool)
    ensures
        b == list_refs(*l).contains(r),
    decreases *l,
{
    match l {
        None => false,
        Some(node) => if node.item.0 == r.0 && node.item.1 == r.1 {
            true
        } else {
            list_contains(&node.next, r)
        },
    }
}

/// Take every occurrence of `r` out of the list.
fn list_remove(l: &mut Option<Box<RefNode>>, r: (u32, u16))
    ensures
        list_refs(*final(l)) == list_refs(*old(l)).remove(r),
    decreases *old(l),
    opens_invariants none
    no_unwind
{
    let mut cur: Option<Box<RefNode>> = None;
    std::mem::swap(l, &mut cur);
    match cur {
        None => {
            assert(list_refs(*l) =~= list_refs(*old(l)).remove(r));
        },
        Some(mut node) => {
            list_remove(&mut node.next, r);
            if node.item.0 == r.0 && node.item.1 == r.1 {
                std::mem::swap(l, &mut node.next);
                assert(list_refs(*l) =~= list_refs(*old(l)).remove(r));
            } else {
                let mut rebuilt = Some(node);
                std::mem::swap(l, &mut rebuilt);
                assert(list_refs(*l) =~= list_refs(*old(l)).remove(r));
            }
        },
    }
}

/// A copy of the list.
fn list_copy(l: &Option<Box<RefNode>>) -> (c: Option<Box<RefNode>>)
    ensures
        list_refs(c) == list_refs(*l),
    decreases *l,
{
    match l {
        None => None,
        Some(node) => {
            let next = list_copy(&node.next);
            Some(Box::new(RefNode { item: node.item, next }))
        },
    }
}

/// A set of object references (object number, generation), as a list;
/// removal moves nodes only, so that it cannot unwind.
#[derive(Debug)]
pub struct RefSet {
    head: Option<Box<RefNode>>,
}

impl RefSet {
    /// The references in the set.
    pub closed spec fn view(&self) -> Set<(u32, u16)> {
        list_refs(self.head)
    }

    /// An empty set.
    pub fn new() -> (s: Self)
        ensures
            s.view() == Set::<(u32, u16)>::empty(),
    {
        RefSet { head: None }
    }

    /// Whether the set holds `r`.
    pub fn contains(&self, r: &(u32, u16)) -> (b: bool)
        ensures
            b == self.view().contains(*r),
    {
        list_contains(&self.head, *r)
    }

    /// Add `r` to the set.
    pub fn insert(&mut self, r: (u32, u16))
        ensures
            final(self).view() == old(self).view().insert(r),
    {
        let mut rest: Option<Box<RefNode>> = None;
        std::mem::swap(&mut self.head, &mut rest);
        self.head = Some(Box::new(RefNode { item: r, next: rest }));
    }

    /// Remove `r` from the set.
    pub fn remove(&mut self, r: &(u32, u16))
        ensures
            final(self).view() == old(self).view().remove(*r),
        opens_invariants none
        no_unwind
    {
        list_remove(&mut self.head, *r);
    }

    /// A copy of the set.
    pub fn copy(&self) -> (s: Self)
        ensures
            s.view() == self.view(),
    {
        RefSet { head: list_copy(&self.head) }
    }
}

/// Stack-safe parsing context.
#[derive(Debug)]
pub struct StackSafeContext {
    /// Current recursion depth
    pub depth: usize,
    /// Maximum allowed depth
    pub max_depth: usize,
    /// Object references being processed, to detect cycles
    pub visited_refs: RefSet,
    /// Start time for timeout tracking
    pub start_time: std::time::Instant,
    /// Timeout, in whole seconds
    pub timeout: u64,
}

/// The message when the recursion limit would be exceeded.
pub open spec fn depth_exceeded_message(depth: nat, max_depth: nat) -> Seq<char> {
    "Maximum recursion depth exceeded: "@ + decimal_seq(depth) + " (limit: "@ + decimal_seq(max_depth)
        + ")"@
}

/// The message when a reference is visited again.
pub open spec fn circular_message(obj_num: u32, gen_num: u16) -> Seq<char> {
    "Circular reference detected: "@ + decimal_seq(obj_num as nat) + " "@ + decimal_seq(gen_num as nat)
        + " R"@
}

/// The message of the timeout error for a timeout of `secs` seconds.
pub open spec fn timeout_message(secs: u64) -> Seq<char> {
    "Parsing timeout exceeded: "@ + decimal_seq(secs as nat) + "s"@
}

/// Whether `e` is the timeout error for a timeout of `secs` seconds: a
/// syntax error at position 0 with `timeout_message(secs)`.
pub open spec fn is_timeout_error(e: ParseError, secs: u64) -> bool {
    e matches ParseError::SyntaxError { position, message } && position == 0 && message@ == timeout_message(
        secs,
    )
}

/// The depth after leaving a level: one less, but never below 0.
pub open spec fn exited_depth(depth: nat) -> nat {
    if depth > 0 { (depth - 1) as nat } else { 0 }
}

/// Entering a level within the limit and leaving it again gives back the
/// depth one started from.
pub proof fn lemma_enter_exit_restores_depth(depth: nat, max_depth: nat)
    requires
        depth + 1 <= max_depth,
    ensures
        exited_depth(depth + 1) == depth,
{
}

/// Visiting a reference that is not being processed and unvisiting it
/// again gives back the set of references one started from.
pub proof fn lemma_visit_unvisit_restores_refs(refs: Set<(u32, u16)>, obj_num: u32, gen_num: u16)
    requires
        !refs.contains((obj_num, gen_num)),
    ensures
        refs.insert((obj_num, gen_num)).remove((obj_num, gen_num)) == refs,
{
    assert(refs.insert((obj_num, gen_num)).remove((obj_num, gen_num)) =~= refs);
}

impl Default for StackSafeContext {
    /// A context with the default limits.
    fn default() -> (c: Self)
        ensures
            c.depth == 0,
            c.max_depth == MAX_RECURSION_DEPTH,
            c.visited_refs.view() == Set::<(u32, u16)>::empty(),
            c.timeout == PARSING_TIMEOUT_SECS,
    {
        Self::new()
    }
}

impl StackSafeContext {
    /// Create a new stack-safe context: depth 0, depth limit 1000, no
    /// visited references, a 30 second timeout from now.
    pub fn new() -> (c: Self)
        ensures
            c.depth == 0,
            c.max_depth == MAX_RECURSION_DEPTH,
            c.visited_refs.view() == Set::<(u32, u16)>::empty(),
            c.timeout == PARSING_TIMEOUT_SECS,
    {
        StackSafeContext {
            depth: 0,
            max_depth: MAX_RECURSION_DEPTH,
            visited_refs: RefSet::new(),
            start_time: instant_now(),
            timeout: PARSING_TIMEOUT_SECS,
        }
    }

    /// Create a new context with custom limits: a depth limit and a
    /// timeout in seconds, counted from now.
    pub fn with_limits(max_depth: usize, timeout_secs: u64) -> (c: Self)
        ensures
            c.depth == 0,
            c.max_depth == max_depth,
            c.visited_refs.view() == Set::<(u32, u16)>::empty(),
            c.timeout == timeout_secs,
    {
        StackSafeContext {
            depth: 0,
            max_depth,
            visited_refs: RefSet::new(),
            start_time: instant_now(),
            timeout: timeout_secs,
        }
    }

    /// Enter a new recursion level: an error when the depth would exceed
    /// the limit; else one level deeper, then a timeout check.
    pub fn enter(&mut self) -> (r: ParseResult<()>)
        requires
            old(self).depth < usize::MAX,
        ensures
            final(self).start_time == old(self).start_time,
            final(self).timeout == old(self).timeout,
            final(self).max_depth == old(self).max_depth,
            final(self).visited_refs.view() == old(self).visited_refs.view(),
            old(self).depth + 1 > old(self).max_depth ==> final(self).depth == old(self).depth && (r matches Err(
                ParseError::SyntaxError { position, message },
            ) && position == 0 && message@ == depth_exceeded_message(
                (old(self).depth + 1) as nat,
                old(self).max_depth as nat,
            )),
            old(self).depth + 1 <= old(self).max_depth ==> final(self).depth == old(self).depth + 1 && (
            r is Ok || (r matches Err(e) && is_timeout_error(e, old(self).timeout))),
    {
        if self.depth + 1 > self.max_depth {
            let mut msg = String::from_str("Maximum recursion depth exceeded: ");
            push_decimal(&mut msg, (self.depth + 1) as u64);
            msg.append(" (limit: ");
            push_decimal(&mut msg, self.max_depth as u64);
            msg.append(")");
            return Err(ParseError::SyntaxError { position: 0, message: msg });
        }
        self.depth = self.depth + 1;
        self.check_timeout()
    }

    /// Exit a recursion level (the depth does not go below 0).
    pub fn exit(&mut self)
        ensures
            final(self).start_time == old(self).start_time,
            final(self).timeout == old(self).timeout,
            final(self).depth == exited_depth(old(self).depth as nat),
            final(self).max_depth == old(self).max_depth,
            final(self).visited_refs.view() == old(self).visited_refs.view(),
        opens_invariants none
        no_unwind
    {
        if self.depth > 0 {
            self.depth = self.depth - 1;
        }
    }

    /// Check if we've visited an object reference (for cycle detection):
    /// an error if it is being processed, else it is recorded.
    pub fn visit_ref(&mut self, obj_num: u32, gen_num: u16) -> (r: ParseResult<()>)
        ensures
            final(self).start_time == old(self).start_time,
            final(self).timeout == old(self).timeout,
            final(self).depth == old(self).depth,
            final(self).max_depth == old(self).max_depth,
            old(self).visited_refs.view().contains((obj_num, gen_num)) ==> final(self).visited_refs.view()
                == old(self).visited_refs.view() && (r matches Err(
                ParseError::SyntaxError { position, message },
            ) && position == 0 && message@ == circular_message(obj_num, gen_num)),
            !old(self).visited_refs.view().contains((obj_num, gen_num)) ==> final(self).visited_refs.view()
                == old(self).visited_refs.view().insert((obj_num, gen_num)) && r is Ok,
    {
        let ref_key = (obj_num, gen_num);
        if self.visited_refs.contains(&ref_key) {
            let mut msg = String::from_str("Circular reference detected: ");
            push_decimal(&mut msg, obj_num as u64);
            msg.append(" ");
            push_decimal(&mut msg, gen_num as u64);
            msg.append(" R");
            return Err(ParseError::SyntaxError { position: 0, message: msg });
        }
        self.visited_refs.insert(ref_key);
        Ok(())
    }

    /// Mark a reference as no longer being processed.
    pub fn unvisit_ref(&mut self, obj_num: u32, gen_num: u16)
        ensures
            final(self).start_time == old(self).start_time,
            final(self).timeout == old(self).timeout,
            final(self).depth == old(self).depth,
            final(self).max_depth == old(self).max_depth,
            final(self).visited_refs.view() == old(self).visited_refs.view().remove((obj_num, gen_num)),
        opens_invariants none
        no_unwind
    {
        self.visited_refs.remove(&(obj_num, gen_num));
    }

    /// Check if parsing has timed out: once more than `timeout` seconds
    /// have passed since the start, the timeout error naming those seconds.
    pub fn check_timeout(&self) -> (r: ParseResult<()>)
        ensures
            r is Ok || (r matches Err(e) && is_timeout_error(e, self.timeout)),
    {
        if elapsed_exceeds(&self.start_time, self.timeout) {
            let mut msg = String::from_str("Parsing timeout exceeded: ");
            let secs = self.timeout;
            push_decimal(&mut msg, secs);
            msg.append("s");
            assert(msg@ == "Parsing timeout exceeded: "@ + decimal_seq(secs as nat) + "s"@);
            return Err(ParseError::SyntaxError { position: 0, message: msg });
        }
        Ok(())
    }

    /// Create a child context for nested operations: the same depth,
    /// limits, visited references, start time and timeout.
    pub fn child(&self) -> (c: Self)
        ensures
            c.depth == self.depth,
            c.max_depth == self.max_depth,
            c.visited_refs.view() == self.visited_refs.view(),
            c.start_time == self.start_time,
            c.timeout == self.timeout,
    {
        StackSafeContext {
            depth: self.depth,
            max_depth: self.max_depth,
            visited_refs: self.visited_refs.copy(),
            start_time: self.start_time,
            timeout: self.timeout,
        }
    }
}

/// RAII guard for recursion depth tracking: it enters a level when made
/// and exits it when dropped.
pub struct RecursionGuard<'a> {
    context: &'a mut StackSafeContext,
}

impl<'a> RecursionGuard<'a> {
    /// The context the guard holds, as it is now.
    pub closed spec fn context(&self) -> StackSafeContext {
        *self.context
    }

    /// Enter a recursion level; the guard exits it when dropped. Past the
    /// depth limit it is the limit error, at the same depth;
    /// within it the context is one level deeper, and the guard is made
    /// unless the time limit has passed. The limits and the visited
    /// references stay as they were.
    pub fn new(context: &'a mut StackSafeContext) -> (r: ParseResult<Self>)
        requires
            old(context).depth < usize::MAX,
        ensures
            r matches Ok(g) ==> g.context().depth == old(context).depth + 1 && g.context().max_depth
                == old(context).max_depth && g.context().visited_refs.view()
                == old(context).visited_refs.view() && g.context().timeout == old(context).timeout,
            old(context).depth + 1 > old(context).max_depth ==> (r matches Err(
                ParseError::SyntaxError { position, message },
            ) && position == 0 && message@ == depth_exceeded_message(
                (old(context).depth + 1) as nat,
                old(context).max_depth as nat,
            )) && final(context).depth == old(context).depth,
            old(context).depth + 1 <= old(context).max_depth ==> (r is Ok || (r matches Err(e)
                && is_timeout_error(e, old(context).timeout))),
            r is Err ==> final(context).max_depth == old(context).max_depth
                && final(context).visited_refs.view() == old(context).visited_refs.view(),
            (r is Err && old(context).depth + 1 <= old(context).max_depth) ==> final(context).depth
                == old(context).depth + 1,
    {
        match context.enter() {
            Ok(()) => Ok(RecursionGuard { context }),
            Err(e) => Err(e),
        }
    }
}

impl<'a> Drop for RecursionGuard<'a> {
    fn drop(&mut self)
        opens_invariants none
        no_unwind
    {
        self.context.exit();
    }
}

/// RAII guard for reference tracking: it visits a reference when made and
/// unvisits it when dropped.
pub struct ReferenceGuard<'a> {
    context: &'a mut StackSafeContext,
    obj_num: u32,
    gen_num: u16,
}

impl<'a> ReferenceGuard<'a> {
    /// The context the guard holds, as it is now.
    pub closed spec fn context(&self) -> StackSafeContext {
        *self.context
    }

    /// The reference the guard unvisits when dropped.
    pub closed spec fn reference(&self) -> (u32, u16) {
        (self.obj_num, self.gen_num)
    }

    /// Visit the reference; the guard unvisits it when dropped. A
    /// reference that is already being processed is the circular
    /// reference error, with the context unchanged.
    pub fn new(context: &'a mut StackSafeContext, obj_num: u32, gen_num: u16) -> (r: ParseResult<Self>)
        ensures
            old(context).visited_refs.view().contains((obj_num, gen_num)) ==> (r matches Err(
                ParseError::SyntaxError { position, message },
            ) && position == 0 && message@ == circular_message(obj_num, gen_num)),
            !old(context).visited_refs.view().contains((obj_num, gen_num)) ==> r is Ok,
            r matches Ok(g) ==> g.context().visited_refs.view() == old(context).visited_refs.view().insert(
                (obj_num, gen_num),
            ) && g.context().depth == old(context).depth && g.context().max_depth
                == old(context).max_depth && g.reference() == (obj_num, gen_num),
            r is Err ==> final(context).visited_refs.view() == old(context).visited_refs.view()
                && final(context).depth == old(context).depth && final(context).max_depth
                == old(context).max_depth,
    {
        match context.visit_ref(obj_num, gen_num) {
            Ok(()) => Ok(ReferenceGuard { context, obj_num, gen_num }),
            Err(e) => Err(e),
        }
    }
}

impl<'a> Drop for ReferenceGuard<'a> {
    fn drop(&mut self)
        opens_invariants none
        no_unwind
    {
        self.context.unvisit_ref(self.obj_num, self.gen_num);
    }
}

} // verus!
