//! Pull-based streaming stages and their composition.
use vstd::prelude::*;

verus! {

/// A sequence pulled one item at a time.
pub trait Source {
    type Item;

    /// The items still to come, where the source knows them in advance.
    spec fn known(&self) -> Option<Seq<Self::Item>>;

    /// The next item, or `None` at the end.
    fn pull(&mut self) -> (r: Option<Self::Item>)
        ensures
            old(self).known() matches Some(s) ==> final(self).known() == Some(
                if s.len() == 0 {
                    s
                } else {
                    s.drop_first()
                },
            ) && r == if s.len() == 0 {
                None
            } else {
                Some(s[0])
            },
    ;
}

/// A stage that pulls what it needs from an upstream source to produce one
/// output per call; `None` marks the end of its output.
pub trait Transform<In> {
    type Out;

    /// Produces the next output, pulling from `src` as needed.
    fn next<S: Source<Item = In>>(&mut self, src: &mut S) -> Option<Self::Out>;
}

/// The source that a stage makes of its upstream: each pull runs the stage once.
pub struct Stage<'a, S, T> {
    src: &'a mut S,
    stage: &'a mut T,
}

impl<'a, S: Source, T: Transform<S::Item>> Source for Stage<'a, S, T> {
    type Item = T::Out;

    open spec fn known(&self) -> Option<Seq<T::Out>> {
        None
    }

    fn pull(&mut self) -> Option<T::Out> {
        self.stage.next(self.src)
    }
}

/// Two stages run one after the other: the second pulls from the first.
pub struct Chain<T1, T2> {
    pub first: T1,
    pub second: T2,
}

impl<In, T1: Transform<In>, T2: Transform<T1::Out>> Transform<In> for Chain<T1, T2> {
    type Out = T2::Out;

    fn next<S: Source<Item = In>>(&mut self, src: &mut S) -> Option<T2::Out> {
        let mut up = Stage { src, stage: &mut self.first };
        self.second.next(&mut up)
    }
}

/// A source that hands out the items of a vector in order.
pub struct VecSource<T> {
    items: Vec<T>,
    pos: usize,
}

impl<T: Copy> VecSource<T> {
    /// The items still to be pulled.
    pub closed spec fn rest(&self) -> Seq<T> {
        if self.pos <= self.items@.len() {
            self.items@.subrange(self.pos as int, self.items@.len() as int)
        } else {
            seq![]
        }
    }

    /// A source of the items of `items`, first to last.
    pub fn new(items: Vec<T>) -> (r: VecSource<T>)
        ensures
            r.known() == Some(items@),
    {
        let r = VecSource { items, pos: 0 };
        assert(r.rest() == r.items@);
        r
    }

}

impl<T: Copy> Source for VecSource<T> {
    type Item = T;

    closed spec fn known(&self) -> Option<Seq<T>> {
        Some(self.rest())
    }

    fn pull(&mut self) -> Option<T> {
        if self.pos < self.items.len() {
            let item = self.items[self.pos];
            let ghost before = self.rest();
            self.pos = self.pos + 1;
            assert(self.rest() == before.drop_first());
            Some(item)
        } else {
            None
        }
    }
}

/// A source made of an upstream source and a stage applied to it.
pub struct TransformIterator<S, T> {
    iter: S,
    transform: T,
}

impl<S: Source, T: Transform<S::Item>> TransformIterator<S, T> {
    /// The upstream source.
    pub closed spec fn source(&self) -> S {
        self.iter
    }

    /// The stage applied to it.
    pub closed spec fn stage(&self) -> T {
        self.transform
    }

    /// Applies `transform` to `iter`.
    pub fn new(iter: S, transform: T) -> (r: TransformIterator<S, T>)
        ensures
            r.source() == iter,
            r.stage() == transform,
    {
        TransformIterator { iter, transform }
    }

    /// Pulls up to `n` outputs, stopping early at the end of the output.
    pub fn take(&mut self, n: usize) -> (r: Vec<T::Out>)
        ensures
            r@.len() <= n,
    {
        let mut out: Vec<T::Out> = Vec::new();
        let mut i: usize = 0;
        while i < n
            invariant
                i <= n,
                out@.len() == i,
            decreases n - i,
        {
            match self.transform.next(&mut self.iter) {
                Some(x) => out.push(x),
                None => return out,
            }
            i = i + 1;
        }
        out
    }
}

impl<S: Source, T: Transform<S::Item>> Source for TransformIterator<S, T> {
    type Item = T::Out;

    open spec fn known(&self) -> Option<Seq<T::Out>> {
        None
    }

    fn pull(&mut self) -> Option<T::Out> {
        self.transform.next(&mut self.iter)
    }
}

/// Applying a stage to a source, as a method of the source.
pub trait IteratorTransforms: Source + Sized {
    /// The source of the outputs of `transform` running on `self`.
    fn apply<T: Transform<Self::Item>>(self, transform: T) -> TransformIterator<Self, T>;
}

impl<S: Source> IteratorTransforms for S {
    fn apply<T: Transform<S::Item>>(self, transform: T) -> (r: TransformIterator<S, T>)
        ensures
            r.source() == self,
            r.stage() == transform,
    {
        TransformIterator::new(self, transform)
    }
}

/// A stage that passes each item on, wrapped in `Ok`.
pub struct ResultWrap<I> {
    marker: std::marker::PhantomData<I>,
}

impl<I> ResultWrap<I> {
    /// The stage.
    pub fn new() -> ResultWrap<I> {
        ResultWrap { marker: std::marker::PhantomData }
    }
}

impl<I> Transform<I> for ResultWrap<I> {
    type Out = Result<I, std::convert::Infallible>;

    /// Passes the next item on, wrapped in `Ok`.
    fn next<S: Source<Item = I>>(&mut self, src: &mut S) -> (r: Option<Result<I, std::convert::Infallible>>)
        ensures
            old(src).known() matches Some(s) ==> final(src).known() == Some(
                if s.len() == 0 {
                    s
                } else {
                    s.drop_first()
                },
            ) && r == if s.len() == 0 {
                None
            } else {
                Some(Ok::<I, std::convert::Infallible>(s[0]))
            },
    {
        match src.pull() {
            Some(item) => Some(Ok(item)),
            None => None,
        }
    }
}

} // verus!
