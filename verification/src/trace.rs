//! Tracing and finalization of the elements of the allocations.
use vstd::prelude::*;
use crate::cc::Cc;
use crate::weak::Weak;

verus! {

/// Trait to finalize objects before freeing them.
///
/// The finalizer is called after an object becomes garbage and before it is dropped.
/// By default objects are finalized only once; see [`Cc::finalize_again`].
pub trait Finalize {
    /// The finalizer. The default implementation is empty.
    fn finalize(&self) {
    }
}

/// Trait to trace cycle-collected objects: `trace` reports to the [`Context`] every [`Cc`]
/// the value owns.
pub trait Trace: Finalize {
    /// Whether `trace` is specified by [`Trace::owned`]: every implementation of this
    /// library says so; one that does not (the default) promises nothing.
    open spec fn traces_owned(&self) -> bool {
        false
    }

    /// The allocations of the [`Cc`]s owned by `self`, in the order `trace` reports them.
    open spec fn owned(&self) -> Seq<usize> {
        Seq::empty()
    }

    /// Reports the [`Cc`]s owned by `self` to `ctx`.
    fn trace(&self, ctx: &mut Context)
        ensures
            self.traces_owned() ==> final(ctx)@ == old(ctx)@ + self.owned(),
    ;
}

/// The allocations owned by the values of `s`, in order.
pub open spec fn owned_seq<E: Trace>(s: Seq<E>) -> Seq<usize>
    decreases s.len(),
{
    if s.len() == 0 {
        Seq::empty()
    } else {
        owned_seq(s.drop_last()) + s.last().owned()
    }
}

/// The context of a tracing: the allocations reported so far, in order.
pub struct Context {
    traced: Vec<usize>,
}

impl View for Context {
    type V = Seq<usize>;

    closed spec fn view(&self) -> Seq<usize> {
        self.traced@
    }
}

impl Context {
    /// A context to which nothing has been reported.
    pub fn new() -> (ctx: Context)
        ensures
            ctx@ == Seq::<usize>::empty(),
    {
        Context { traced: Vec::new() }
    }

    /// The allocations reported so far, in order.
    pub fn traced(&self) -> (v: &Vec<usize>)
        ensures
            v@ == self@,
    {
        &self.traced
    }
}

impl Finalize for Cc {
}

impl Trace for Cc {
    open spec fn traces_owned(&self) -> bool {
        true
    }

    open spec fn owned(&self) -> Seq<usize> {
        seq![self@]
    }

    /// Reports the allocation this handle points to.
    fn trace(&self, ctx: &mut Context)
        ensures
            final(ctx)@ == old(ctx)@.push(self@),
    {
        ctx.traced.push(self.index());
        assert(ctx@ =~= old(ctx)@ + seq![self@]);
    }
}

impl Finalize for Weak {
}

impl Trace for Weak {
    open spec fn traces_owned(&self) -> bool {
        true
    }

    open spec fn owned(&self) -> Seq<usize> {
        Seq::empty()
    }

    /// A weak pointer owns nothing: nothing is reported.
    fn trace(&self, ctx: &mut Context)
        ensures
            final(ctx)@ == old(ctx)@,
    {
        assert(ctx@ =~= old(ctx)@ + Seq::<usize>::empty());
    }
}

impl<E: Trace> Finalize for Vec<E> {
}

impl<E: Trace> Trace for Vec<E> {
    open spec fn traces_owned(&self) -> bool {
        forall|i: int| 0 <= i < self@.len() ==> #[trigger] self@[i].traces_owned()
    }

    open spec fn owned(&self) -> Seq<usize> {
        owned_seq(self@)
    }

    /// Traces the elements in order.
    fn trace(&self, ctx: &mut Context) {
        let ghost start = ctx@;
        let mut i: usize = 0;
        proof {
            assert(self@.take(0) =~= Seq::<E>::empty());
            assert(start + owned_seq(self@.take(0)) =~= start);
        }
        while i < self.len()
            invariant
                i <= self.len(),
                self.traces_owned() ==> ctx@ == start + owned_seq(self@.take(i as int)),
            decreases self.len() - i,
        {
            self[i].trace(ctx);
            proof {
                if self.traces_owned() {
                    let t = self@.take(i + 1);
                    assert(t.drop_last() =~= self@.take(i as int));
                    assert(t.last() == self@[i as int]);
                    assert(self@[i as int].traces_owned());
                    assert(ctx@ =~= start + owned_seq(t));
                }
            }
            i = i + 1;
        }
        proof {
            assert(self@.take(self.len() as int) =~= self@);
        }
    }
}

impl<E: Trace> Finalize for Option<E> {
}

impl<E: Trace> Trace for Option<E> {
    open spec fn traces_owned(&self) -> bool {
        match self {
            Some(e) => e.traces_owned(),
            None => true,
        }
    }

    open spec fn owned(&self) -> Seq<usize> {
        match self {
            Some(e) => e.owned(),
            None => Seq::empty(),
        }
    }

    /// Traces the value, if any.
    fn trace(&self, ctx: &mut Context) {
        if let Some(e) = self {
            e.trace(ctx);
        } else {
            assert(ctx@ =~= old(ctx)@ + Seq::<usize>::empty());
        }
    }
}

impl<V: Trace, E: Trace> Finalize for Result<V, E> {
}

impl<V: Trace, E: Trace> Trace for Result<V, E> {
    open spec fn traces_owned(&self) -> bool {
        match self {
            Ok(v) => v.traces_owned(),
            Err(e) => e.traces_owned(),
        }
    }

    open spec fn owned(&self) -> Seq<usize> {
        match self {
            Ok(v) => v.owned(),
            Err(e) => e.owned(),
        }
    }

    /// Traces the value or the error.
    fn trace(&self, ctx: &mut Context) {
        match self {
            Ok(v) => v.trace(ctx),
            Err(e) => e.trace(ctx),
        }
    }
}

impl Finalize for () {
}

impl Trace for () {
    open spec fn traces_owned(&self) -> bool {
        true
    }

    open spec fn owned(&self) -> Seq<usize> {
        Seq::empty()
    }

    fn trace(&self, ctx: &mut Context) {
        assert(ctx@ =~= old(ctx)@ + Seq::<usize>::empty());
    }
}

impl Finalize for bool {
}

impl Trace for bool {
    open spec fn traces_owned(&self) -> bool {
        true
    }

    open spec fn owned(&self) -> Seq<usize> {
        Seq::empty()
    }

    fn trace(&self, ctx: &mut Context) {
        assert(ctx@ =~= old(ctx)@ + Seq::<usize>::empty());
    }
}

impl Finalize for char {
}

impl Trace for char {
    open spec fn traces_owned(&self) -> bool {
        true
    }

    open spec fn owned(&self) -> Seq<usize> {
        Seq::empty()
    }

    fn trace(&self, ctx: &mut Context) {
        assert(ctx@ =~= old(ctx)@ + Seq::<usize>::empty());
    }
}

impl Finalize for u8 {
}

impl Trace for u8 {
    open spec fn traces_owned(&self) -> bool {
        true
    }

    open spec fn owned(&self) -> Seq<usize> {
        Seq::empty()
    }

    fn trace(&self, ctx: &mut Context) {
        assert(ctx@ =~= old(ctx)@ + Seq::<usize>::empty());
    }
}

impl Finalize for u16 {
}

impl Trace for u16 {
    open spec fn traces_owned(&self) -> bool {
        true
    }

    open spec fn owned(&self) -> Seq<usize> {
        Seq::empty()
    }

    fn trace(&self, ctx: &mut Context) {
        assert(ctx@ =~= old(ctx)@ + Seq::<usize>::empty());
    }
}

impl Finalize for u32 {
}

impl Trace for u32 {
    open spec fn traces_owned(&self) -> bool {
        true
    }

    open spec fn owned(&self) -> Seq<usize> {
        Seq::empty()
    }

    fn trace(&self, ctx: &mut Context) {
        assert(ctx@ =~= old(ctx)@ + Seq::<usize>::empty());
    }
}

impl Finalize for u64 {
}

impl Trace for u64 {
    open spec fn traces_owned(&self) -> bool {
        true
    }

    open spec fn owned(&self) -> Seq<usize> {
        Seq::empty()
    }

    fn trace(&self, ctx: &mut Context) {
        assert(ctx@ =~= old(ctx)@ + Seq::<usize>::empty());
    }
}

impl Finalize for usize {
}

impl Trace for usize {
    open spec fn traces_owned(&self) -> bool {
        true
    }

    open spec fn owned(&self) -> Seq<usize> {
        Seq::empty()
    }

    fn trace(&self, ctx: &mut Context) {
        assert(ctx@ =~= old(ctx)@ + Seq::<usize>::empty());
    }
}

impl Finalize for i8 {
}

impl Trace for i8 {
    open spec fn traces_owned(&self) -> bool {
        true
    }

    open spec fn owned(&self) -> Seq<usize> {
        Seq::empty()
    }

    fn trace(&self, ctx: &mut Context) {
        assert(ctx@ =~= old(ctx)@ + Seq::<usize>::empty());
    }
}

impl Finalize for i16 {
}

impl Trace for i16 {
    open spec fn traces_owned(&self) -> bool {
        true
    }

    open spec fn owned(&self) -> Seq<usize> {
        Seq::empty()
    }

    fn trace(&self, ctx: &mut Context) {
        assert(ctx@ =~= old(ctx)@ + Seq::<usize>::empty());
    }
}

impl Finalize for i32 {
}

impl Trace for i32 {
    open spec fn traces_owned(&self) -> bool {
        true
    }

    open spec fn owned(&self) -> Seq<usize> {
        Seq::empty()
    }

    fn trace(&self, ctx: &mut Context) {
        assert(ctx@ =~= old(ctx)@ + Seq::<usize>::empty());
    }
}

impl Finalize for i64 {
}

impl Trace for i64 {
    open spec fn traces_owned(&self) -> bool {
        true
    }

    open spec fn owned(&self) -> Seq<usize> {
        Seq::empty()
    }

    fn trace(&self, ctx: &mut Context) {
        assert(ctx@ =~= old(ctx)@ + Seq::<usize>::empty());
    }
}

impl Finalize for isize {
}

impl Trace for isize {
    open spec fn traces_owned(&self) -> bool {
        true
    }

    open spec fn owned(&self) -> Seq<usize> {
        Seq::empty()
    }

    fn trace(&self, ctx: &mut Context) {
        assert(ctx@ =~= old(ctx)@ + Seq::<usize>::empty());
    }
}

impl Finalize for String {
}

impl Trace for String {
    open spec fn traces_owned(&self) -> bool {
        true
    }

    open spec fn owned(&self) -> Seq<usize> {
        Seq::empty()
    }

    fn trace(&self, ctx: &mut Context) {
        assert(ctx@ =~= old(ctx)@ + Seq::<usize>::empty());
    }
}

/// A `Result` owns exactly what its value or its error owns, and follows the specification
/// of tracing when that one does.
pub proof fn law_result_owned<V: Trace, E: Trace>(v: V, e: E)
    ensures
        Ok::<V, E>(v).owned() == v.owned(),
        Err::<V, E>(e).owned() == e.owned(),
        Ok::<V, E>(v).traces_owned() == v.traces_owned(),
        Err::<V, E>(e).traces_owned() == e.traces_owned(),
{
}

/// An `Option` owns what its value owns, and nothing when empty.
pub proof fn law_option_owned<E: Trace>(e: E)
    ensures
        Some(e).owned() == e.owned(),
        None::<E>.owned() == Seq::<usize>::empty(),
        Some(e).traces_owned() == e.traces_owned(),
        None::<E>.traces_owned(),
{
}

/// A vector owns what its elements own, in order: appending an element appends what it owns.
pub proof fn law_vec_owned<E: Trace>(s: Seq<E>, e: E)
    ensures
        owned_seq(Seq::<E>::empty()) == Seq::<usize>::empty(),
        owned_seq(s.push(e)) == owned_seq(s) + e.owned(),
{
    assert(s.push(e).drop_last() =~= s);
}

/// A handle owns exactly the allocation it points to; a weak pointer owns nothing.
pub proof fn law_handle_owned(c: Cc, w: Weak)
    ensures
        c.owned() == seq![c@],
        c.traces_owned(),
        w.owned() == Seq::<usize>::empty(),
        w.traces_owned(),
{
}

} // verus!
