//! The middle representation of a regex: the parsed tree stripped to what
//! the graph is built from, so that no transformation is needed later on
//! the graph, where loops could make it run forever.

use vstd::prelude::*;

use crate::error::Unsupported;
use crate::syntax::{lemma_syntax_views, syntax_views, CharClass, CharClassView, Repeat, Symbol, Syntax, SyntaxView};

verus! {

broadcast use vstd::std_specs::vec::group_vec_axioms;

/// A regex in the form the graph is built from.
#[derive(Debug)]
pub enum Mir {
    /// Matches the empty string.
    Empty,
    /// Zero or more times.
    Loop(Box<Mir>),
    /// Zero or one time.
    Maybe(Box<Mir>),
    Concat(Vec<Mir>),
    Alternation(Vec<Mir>),
    Class(CharClass),
    Literal(Symbol),
}

/// Model of a `Mir`.
pub enum MirView {
    Empty,
    Loop(Box<MirView>),
    Maybe(Box<MirView>),
    Concat(Seq<MirView>),
    Alternation(Seq<MirView>),
    Class(CharClassView),
    Literal(Symbol),
}

impl View for Mir {
    type V = MirView;

    open spec fn view(&self) -> MirView
        decreases self,
    {
        match self {
            Mir::Empty => MirView::Empty,
            Mir::Loop(m) => MirView::Loop(Box::new((**m)@)),
            Mir::Maybe(m) => MirView::Maybe(Box::new((**m)@)),
            Mir::Concat(v) => MirView::Concat(mir_views(v@)),
            Mir::Alternation(v) => MirView::Alternation(mir_views(v@)),
            Mir::Class(c) => MirView::Class(c@),
            Mir::Literal(l) => MirView::Literal(*l),
        }
    }
}

/// Models of a sequence of `Mir`s, in order.
pub open spec fn mir_views(s: Seq<Mir>) -> Seq<MirView>
    decreases s,
{
    if s.len() == 0 {
        Seq::empty()
    } else {
        mir_views(s.drop_last()).push(s.last()@)
    }
}

/// The models of a sequence of `Mir`s line up with its members.
pub proof fn lemma_mir_views(s: Seq<Mir>)
    ensures
        mir_views(s).len() == s.len(),
        forall|i: int| 0 <= i < s.len() ==> #[trigger] mir_views(s)[i] == s[i]@,
    decreases s.len(),
{
    if s.len() > 0 {
        lemma_mir_views(s.drop_last());
        assert(mir_views(s) == mir_views(s.drop_last()).push(s.last()@));
        assert forall|i: int| 0 <= i < s.len() implies #[trigger] mir_views(s)[i] == s[i]@ by {
            if i < s.len() - 1 {
                assert(s.drop_last()[i] == s[i]);
            }
        }
    }
}

/// Models of two sequences one after the other.
proof fn lemma_mir_views_add(a: Seq<Mir>, b: Seq<Mir>)
    ensures
        mir_views(a + b) == mir_views(a) + mir_views(b),
{
    lemma_mir_views(a);
    lemma_mir_views(b);
    lemma_mir_views(a + b);
    assert(mir_views(a + b) =~= mir_views(a) + mir_views(b));
}

/// What a parsed pattern lowers to: groups are dropped, `?` and `*`
/// become `Maybe` and `Loop`, `x+` becomes `x` followed by a loop of `x`,
/// concatenations nested in a concatenation are flattened into it, and
/// the first unsupported feature met (left to right, outside in) is the
/// error.
pub open spec fn lower(s: SyntaxView) -> Result<MirView, Unsupported>
    decreases s,
{
    match s {
        SyntaxView::Empty => Ok(MirView::Empty),
        SyntaxView::Literal(l) => Ok(MirView::Literal(l)),
        SyntaxView::Class(c) => Ok(MirView::Class(c)),
        SyntaxView::Anchor => Err(Unsupported::Anchor),
        SyntaxView::WordBoundary => Err(Unsupported::WordBoundary),
        SyntaxView::Group(sub) => lower(*sub),
        SyntaxView::Repetition(greedy, kind, sub) => if !greedy {
            Err(Unsupported::NonGreedy)
        } else {
            match lower(*sub) {
                Err(e) => Err(e),
                Ok(m) => match kind {
                    Repeat::ZeroOrOne => Ok(MirView::Maybe(Box::new(m))),
                    Repeat::ZeroOrMore => Ok(MirView::Loop(Box::new(m))),
                    Repeat::OneOrMore => Ok(MirView::Concat(seq![m, MirView::Loop(Box::new(m))])),
                    Repeat::Range => Err(Unsupported::RepetitionRange),
                },
            }
        },
        SyntaxView::Concat(items) => match lower_concat(items) {
            Ok(v) => Ok(MirView::Concat(v)),
            Err(e) => Err(e),
        },
        SyntaxView::Alternation(items) => match lower_each(items) {
            Ok(v) => Ok(MirView::Alternation(v)),
            Err(e) => Err(e),
        },
    }
}

/// The members of a concatenation lowered in order, the members of a
/// lowered concatenation spliced in its place.
pub open spec fn lower_concat(s: Seq<SyntaxView>) -> Result<Seq<MirView>, Unsupported>
    decreases s,
{
    if s.len() == 0 {
        Ok(Seq::empty())
    } else {
        match lower_concat(s.drop_last()) {
            Err(e) => Err(e),
            Ok(prefix) => match lower(s.last()) {
                Err(e) => Err(e),
                Ok(MirView::Concat(nested)) => Ok(prefix + nested),
                Ok(m) => Ok(prefix.push(m)),
            },
        }
    }
}

/// The members of an alternation lowered in order.
pub open spec fn lower_each(s: Seq<SyntaxView>) -> Result<Seq<MirView>, Unsupported>
    decreases s,
{
    if s.len() == 0 {
        Ok(Seq::empty())
    } else {
        match lower_each(s.drop_last()) {
            Err(e) => Err(e),
            Ok(prefix) => match lower(s.last()) {
                Err(e) => Err(e),
                Ok(m) => Ok(prefix.push(m)),
            },
        }
    }
}

impl Mir {
    /// A copy of the tree.
    pub fn copy(&self) -> (r: Mir)
        ensures
            r@ == self@,
        decreases self,
    {
        match self {
            Mir::Empty => Mir::Empty,
            Mir::Loop(m) => Mir::Loop(Box::new(m.copy())),
            Mir::Maybe(m) => Mir::Maybe(Box::new(m.copy())),
            Mir::Concat(v) => Mir::Concat(Mir::copy_all(self, v)),
            Mir::Alternation(v) => Mir::Alternation(Mir::copy_all(self, v)),
            Mir::Class(c) => Mir::Class(c.copy()),
            Mir::Literal(l) => Mir::Literal(*l),
        }
    }

    fn copy_all(parent: &Mir, v: &Vec<Mir>) -> (r: Vec<Mir>)
        requires
            *parent == Mir::Concat(*v) || *parent == Mir::Alternation(*v),
        ensures
            mir_views(r@) == mir_views(v@),
        decreases parent, 0int,
    {
        let mut out: Vec<Mir> = Vec::new();
        let mut i: usize = 0;
        while i < v.len()
            invariant
                i <= v.len(),
                *parent == Mir::Concat(*v) || *parent == Mir::Alternation(*v),
                mir_views(out@) == mir_views(v@.take(i as int)),
            decreases v.len() - i,
        {
            proof {
                vstd::std_specs::vec::axiom_vec_index_decreases(*v, i as int);
                if *parent == Mir::Concat(*v) {
                    assert(decreases_to!(*parent => (*parent)->Concat_0));
                } else {
                    assert(decreases_to!(*parent => (*parent)->Alternation_0));
                }
                assert(decreases_to!(*parent => v[i as int]));
            }
            let item = v[i].copy();
            proof {
                assert(v@.take(i + 1).drop_last() == v@.take(i as int));
                assert(out@.push(item).drop_last() == out@);
            }
            out.push(item);
            i = i + 1;
        }
        proof {
            assert(v@.take(v.len() as int) == v@);
        }
        out
    }

    /// Lower a parsed pattern; the error is the first unsupported feature
    /// in it.
    pub fn try_from(syntax: Syntax) -> (r: Result<Mir, Unsupported>)
        ensures
            match r {
                Ok(m) => lower(syntax@) == Ok::<MirView, Unsupported>(m@),
                Err(e) => lower(syntax@) == Err::<MirView, Unsupported>(e),
            },
    {
        Mir::lower_ref(&syntax)
    }

    fn lower_ref(syntax: &Syntax) -> (r: Result<Mir, Unsupported>)
        ensures
            match r {
                Ok(m) => lower(syntax@) == Ok::<MirView, Unsupported>(m@),
                Err(e) => lower(syntax@) == Err::<MirView, Unsupported>(e),
            },
        decreases syntax, 1int,
    {
        match syntax {
            Syntax::Empty => Ok(Mir::Empty),
            Syntax::Literal(l) => Ok(Mir::Literal(*l)),
            Syntax::Class(c) => Ok(Mir::Class(c.copy())),
            Syntax::Anchor => Err(Unsupported::Anchor),
            Syntax::WordBoundary => Err(Unsupported::WordBoundary),
            Syntax::Group(sub) => Mir::lower_ref(sub),
            Syntax::Repetition(greedy, kind, sub) => {
                if !*greedy {
                    return Err(Unsupported::NonGreedy);
                }
                let m = match Mir::lower_ref(sub) {
                    Ok(m) => m,
                    Err(e) => {
                        return Err(e);
                    },
                };
                match kind {
                    Repeat::ZeroOrOne => Ok(Mir::Maybe(Box::new(m))),
                    Repeat::ZeroOrMore => Ok(Mir::Loop(Box::new(m))),
                    Repeat::OneOrMore => {
                        let first = m.copy();
                        let r = Mir::Concat(vec![first, Mir::Loop(Box::new(m))]);
                        proof {
                            let v = r->Concat_0@;
                            assert(v.len() == 2);
                            assert(v.drop_last().drop_last() =~= Seq::<Mir>::empty());
                            assert(mir_views(v.drop_last().drop_last()) =~= Seq::<MirView>::empty());
                            assert(mir_views(v.drop_last()) =~= seq![m@]);
                            assert(v[1]@ == MirView::Loop(Box::new(m@)));
                            assert(mir_views(v) =~= seq![m@, MirView::Loop(Box::new(m@))]);
                        }
                        Ok(r)
                    },
                    Repeat::Range => Err(Unsupported::RepetitionRange),
                }
            },
            Syntax::Concat(v) => {
                match Mir::lower_items(syntax, v, true) {
                    Ok(out) => Ok(Mir::Concat(out)),
                    Err(e) => Err(e),
                }
            },
            Syntax::Alternation(v) => {
                match Mir::lower_items(syntax, v, false) {
                    Ok(out) => Ok(Mir::Alternation(out)),
                    Err(e) => Err(e),
                }
            },
        }
    }

    /// Lower the members of a concatenation (`flatten`) or alternation.
    fn lower_items(parent: &Syntax, v: &Vec<Syntax>, flatten: bool) -> (r: Result<Vec<Mir>, Unsupported>)
        requires
            flatten ==> *parent == Syntax::Concat(*v),
            !flatten ==> *parent == Syntax::Alternation(*v),
        ensures
            flatten ==> match r {
                Ok(out) => lower_concat(syntax_views(v@)) == Ok::<Seq<MirView>, Unsupported>(mir_views(out@)),
                Err(e) => lower_concat(syntax_views(v@)) == Err::<Seq<MirView>, Unsupported>(e),
            },
            !flatten ==> match r {
                Ok(out) => lower_each(syntax_views(v@)) == Ok::<Seq<MirView>, Unsupported>(mir_views(out@)),
                Err(e) => lower_each(syntax_views(v@)) == Err::<Seq<MirView>, Unsupported>(e),
            },
        decreases parent, 0int,
    {
        let mut out: Vec<Mir> = Vec::new();
        let mut i: usize = 0;
        proof {
            lemma_syntax_views(v@);
            lemma_mir_views(out@);
            assert(syntax_views(v@).take(0) =~= Seq::<SyntaxView>::empty());
        }
        while i < v.len()
            invariant
                i <= v.len(),
                flatten ==> *parent == Syntax::Concat(*v),
                !flatten ==> *parent == Syntax::Alternation(*v),
                syntax_views(v@).len() == v@.len(),
                forall|k: int| 0 <= k < v@.len() ==> #[trigger] syntax_views(v@)[k] == v@[k]@,
                flatten ==> lower_concat(syntax_views(v@).take(i as int)) == Ok::<Seq<MirView>, Unsupported>(mir_views(out@)),
                !flatten ==> lower_each(syntax_views(v@).take(i as int)) == Ok::<Seq<MirView>, Unsupported>(mir_views(out@)),
            decreases v.len() - i,
        {
            proof {
                vstd::std_specs::vec::axiom_vec_index_decreases(*v, i as int);
                if flatten {
                    assert(decreases_to!(*parent => (*parent)->Concat_0));
                } else {
                    assert(decreases_to!(*parent => (*parent)->Alternation_0));
                }
                assert(decreases_to!(*parent => v[i as int]));
            }
            let ghost views = syntax_views(v@);
            proof {
                assert(views.take(i + 1).drop_last() == views.take(i as int));
                assert(views.take(i + 1).last() == v@[i as int]@);
            }
            let ghost out0 = out@;
            match Mir::lower_ref(&v[i]) {
                Err(e) => {
                    proof {
                        Mir::lemma_error_stays(views, i as int + 1, flatten);
                    }
                    return Err(e);
                },
                Ok(m) => {
                    if flatten {
                        match m {
                            Mir::Concat(nested) => {
                                let mut nested = nested;
                                let ghost n0 = nested@;
                                out.append(&mut nested);
                                proof {
                                    lemma_mir_views_add(out0, n0);
                                }
                            },
                            m => {
                                out.push(m);
                                proof {
                                    assert(out@.drop_last() == out0);
                                }
                            },
                        }
                    } else {
                        out.push(m);
                        proof {
                            assert(out@.drop_last() == out0);
                        }
                    }
                },
            }
            i = i + 1;
        }
        proof {
            assert(syntax_views(v@).take(v.len() as int) == syntax_views(v@));
        }
        Ok(out)
    }

    /// Once the members up to `i` fail to lower, so do all of them.
    proof fn lemma_error_stays(s: Seq<SyntaxView>, i: int, flatten: bool)
        requires
            0 < i <= s.len(),
            flatten ==> lower_concat(s.take(i)) is Err,
            !flatten ==> lower_each(s.take(i)) is Err,
        ensures
            flatten ==> lower_concat(s) == lower_concat(s.take(i)),
            !flatten ==> lower_each(s) == lower_each(s.take(i)),
        decreases s.len() - i,
    {
        if i < s.len() {
            assert(s.take(i + 1).drop_last() == s.take(i));
            Mir::lemma_error_stays(s, i + 1, flatten);
        } else {
            assert(s.take(i) == s);
        }
    }
}

} // verus!
